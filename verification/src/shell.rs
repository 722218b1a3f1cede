//! What the shell does with a line: the built-in commands `exit` (also `q`
//! and `quit`), `cd` and `echo`, and any other program to run, `cls` being
//! another name for `clear`.

use vstd::prelude::*;
use vstd::string::StringExecFns;
use crate::parser::{lemma_views_push, spec_tokenize, tokenize, views, ParseError};
use crate::text::{is_white_space, law_trimmed_ignores_outer_white_space, trim, trimmed};

verus! {

broadcast use vstd::string::group_string_axioms;

/// What to do for one line.
#[derive(Debug, PartialEq, Eq)]
pub enum Command {
    /// The line holds no words.
    Nothing,
    /// Leave the shell.
    Exit,
    /// Change the working directory to the given one, or to the home
    /// directory when none is given.
    ChangeDir(Option<String>),
    /// `cd` was given more than one argument.
    TooManyCdArguments,
    /// Print the text.
    Echo(String),
    /// Run the program with the arguments.
    Run(String, Vec<String>),
}

/// A command with its texts as character sequences.
pub enum SpecCommand {
    Nothing,
    Exit,
    ChangeDir(Option<Seq<char>>),
    TooManyCdArguments,
    Echo(Seq<char>),
    Run(Seq<char>, Seq<Seq<char>>),
}

impl View for Command {
    type V = SpecCommand;

    open spec fn view(&self) -> SpecCommand {
        match self {
            Command::Nothing => SpecCommand::Nothing,
            Command::Exit => SpecCommand::Exit,
            Command::ChangeDir(Some(d)) => SpecCommand::ChangeDir(Some(d@)),
            Command::ChangeDir(None) => SpecCommand::ChangeDir(None),
            Command::TooManyCdArguments => SpecCommand::TooManyCdArguments,
            Command::Echo(t) => SpecCommand::Echo(t@),
            Command::Run(p, a) => SpecCommand::Run(p@, views(a@)),
        }
    }
}

/// The words joined, with `sep` between each two.
pub open spec fn join_words(words: Seq<Seq<char>>, sep: Seq<char>) -> Seq<char>
    decreases words.len(),
{
    if words.len() == 0 {
        seq![]
    } else if words.len() == 1 {
        words[0]
    } else {
        join_words(words.drop_last(), sep) + sep + words.last()
    }
}

/// The command that the words of a line ask for.
pub open spec fn spec_interpret(words: Seq<Seq<char>>) -> SpecCommand {
    if words.len() == 0 {
        SpecCommand::Nothing
    } else {
        let name = words[0];
        let args = words.drop_first();
        if name == "exit"@ || name == "q"@ || name == "quit"@ {
            SpecCommand::Exit
        } else if name == "cd"@ {
            if args.len() > 1 {
                SpecCommand::TooManyCdArguments
            } else if args.len() == 1 {
                SpecCommand::ChangeDir(Some(args[0]))
            } else {
                SpecCommand::ChangeDir(None)
            }
        } else if name == "echo"@ {
            SpecCommand::Echo(join_words(args, " "@))
        } else if name == "cls"@ {
            SpecCommand::Run("clear"@, args)
        } else {
            SpecCommand::Run(name, args)
        }
    }
}

/// The command that a line asks for, or why its words could not be read.
pub open spec fn spec_command_for_line(line: Seq<char>) -> Result<SpecCommand, ParseError> {
    match spec_tokenize(trimmed(line)) {
        Ok(words) => Ok(spec_interpret(words)),
        Err(e) => Err(e),
    }
}

fn is_text(s: &String, text: &str) -> (b: bool)
    ensures
        b == (s@ == text@),
{
    let t = text.to_string();
    *s == t
}

/// The words joined with single spaces.
pub fn join_with_spaces(words: &[String]) -> (joined: String)
    ensures
        joined@ == join_words(views(words@), " "@),
{
    let mut joined = String::new();
    let ghost all = views(words@);
    for i in 0..words.len()
        invariant
            all == views(words@),
            joined@ == join_words(all.take(i as int), " "@),
    {
        proof {
            assert(all.take(i + 1).drop_last() =~= all.take(i as int));
            assert(all.take(i + 1).last() == words@[i as int]@);
        }
        if i == 0 {
            proof {
                assert(all.take(1) =~= seq![words@[0]@]);
            }
            joined.append(words[i].as_str());
        } else {
            joined.append(" ");
            joined.append(words[i].as_str());
        }
    }
    proof {
        assert(all.take(words@.len() as int) =~= all);
    }
    joined
}

/// The command that the words of a line ask for.
pub fn interpret(words: &Vec<String>) -> (command: Command)
    ensures
        command@ == spec_interpret(views(words@)),
{
    let ghost w = views(words@);
    if words.len() == 0 {
        return Command::Nothing;
    }
    let name = &words[0];
    let args = words.as_slice().split_at(1).1;
    proof {
        assert(views(args@) =~= w.drop_first());
    }
    if is_text(name, "exit") || is_text(name, "q") || is_text(name, "quit") {
        Command::Exit
    } else if is_text(name, "cd") {
        if args.len() > 1 {
            Command::TooManyCdArguments
        } else if args.len() == 1 {
            Command::ChangeDir(Some(args[0].clone()))
        } else {
            Command::ChangeDir(None)
        }
    } else if is_text(name, "echo") {
        Command::Echo(join_with_spaces(args))
    } else {
        let mut rest: Vec<String> = Vec::new();
        for i in 0..args.len()
            invariant
                views(rest@) == views(args@).take(i as int),
        {
            proof {
                lemma_views_push(rest@, args@[i as int]);
                assert(views(args@).take(i as int).push(args@[i as int]@) =~= views(args@).take(i + 1));
            }
            rest.push(args[i].clone());
        }
        proof {
            assert(views(args@).take(args@.len() as int) =~= views(args@));
        }
        if is_text(name, "cls") {
            Command::Run("clear".to_string(), rest)
        } else {
            Command::Run(name.clone(), rest)
        }
    }
}

/// The command that a line asks for: its words are those of the line
/// without leading and trailing white space.
pub fn command_for_line(line: &str) -> (result: Result<Command, ParseError>)
    ensures
        match result {
            Ok(c) => spec_command_for_line(line@) == Ok::<SpecCommand, ParseError>(c@),
            Err(e) => spec_command_for_line(line@) == Err::<SpecCommand, ParseError>(e),
        },
{
    match tokenize(trim(line)) {
        Ok(words) => Ok(interpret(&words)),
        Err(e) => Err(e),
    }
}

proof fn lemma_first_and_rest(name: Seq<char>, args: Seq<Seq<char>>)
    ensures
        (seq![name] + args).len() > 0,
        (seq![name] + args)[0] == name,
        (seq![name] + args).drop_first() == args,
{
    assert((seq![name] + args).drop_first() =~= args);
}

/// Joining no words gives nothing, one word gives that word, and one more
/// word adds the separator and the word.
pub proof fn law_join_words(words: Seq<Seq<char>>, w: Seq<char>, sep: Seq<char>)
    ensures
        join_words(seq![], sep) == Seq::<char>::empty(),
        join_words(seq![w], sep) == w,
        words.len() > 0 ==> join_words(words.push(w), sep) == join_words(words, sep) + sep + w,
{
    assert(words.push(w).drop_last() =~= words);
}

/// A line with no words does nothing.
pub proof fn law_no_words_nothing()
    ensures
        spec_interpret(seq![]) == SpecCommand::Nothing,
{
}

/// `exit`, `q` and `quit` leave the shell, whatever arguments follow them.
pub proof fn law_exit_ignores_arguments(args: Seq<Seq<char>>)
    ensures
        spec_interpret(seq!["exit"@] + args) == SpecCommand::Exit,
        spec_interpret(seq!["q"@] + args) == SpecCommand::Exit,
        spec_interpret(seq!["quit"@] + args) == SpecCommand::Exit,
{
    lemma_first_and_rest("exit"@, args);
    lemma_first_and_rest("q"@, args);
    lemma_first_and_rest("quit"@, args);
}

proof fn lemma_names_differ()
    ensures
        "cd"@ != "exit"@,
        "cd"@ != "q"@,
        "cd"@ != "quit"@,
        "echo"@ != "exit"@,
        "echo"@ != "q"@,
        "echo"@ != "quit"@,
        "echo"@ != "cd"@,
        "cls"@ != "exit"@,
        "cls"@ != "q"@,
        "cls"@ != "quit"@,
        "cls"@ != "cd"@,
        "cls"@ != "echo"@,
{
    reveal_strlit("cd");
    reveal_strlit("exit");
    reveal_strlit("q");
    reveal_strlit("quit");
    reveal_strlit("echo");
    reveal_strlit("cls");
    assert("cd"@.len() != "exit"@.len());
    assert("cd"@[0] != "q"@[0]);
    assert("cd"@.len() != "quit"@.len());
    assert("echo"@[1] != "exit"@[1]);
    assert("echo"@[0] != "q"@[0]);
    assert("echo"@[0] != "quit"@[0]);
    assert("echo"@.len() != "cd"@.len());
    assert("cls"@.len() != "exit"@.len());
    assert("cls"@[0] != "q"@[0]);
    assert("cls"@.len() != "quit"@.len());
    assert("cls"@.len() != "cd"@.len());
    assert("cls"@.len() != "echo"@.len());
}

/// `cd` with no argument goes home, with one goes to it, and with more is
/// refused.
pub proof fn law_cd_arguments(args: Seq<Seq<char>>)
    ensures
        args.len() == 0 ==> spec_interpret(seq!["cd"@] + args) == SpecCommand::ChangeDir(None),
        args.len() == 1 ==> spec_interpret(seq!["cd"@] + args) == SpecCommand::ChangeDir(Some(args[0])),
        args.len() > 1 ==> spec_interpret(seq!["cd"@] + args) == SpecCommand::TooManyCdArguments,
{
    lemma_first_and_rest("cd"@, args);
    lemma_names_differ();
}

/// `echo` prints its arguments with one space between each two.
pub proof fn law_echo_joins_arguments(args: Seq<Seq<char>>)
    ensures
        spec_interpret(seq!["echo"@] + args) == SpecCommand::Echo(join_words(args, " "@)),
{
    lemma_first_and_rest("echo"@, args);
    lemma_names_differ();
}

/// `cls` runs `clear` with the same arguments.
pub proof fn law_cls_runs_clear(args: Seq<Seq<char>>)
    ensures
        spec_interpret(seq!["cls"@] + args) == SpecCommand::Run("clear"@, args),
{
    lemma_first_and_rest("cls"@, args);
    lemma_names_differ();
}

/// Any other first word is a program, run with the words after it.
pub proof fn law_other_names_run(name: Seq<char>, args: Seq<Seq<char>>)
    requires
        name != "exit"@,
        name != "q"@,
        name != "quit"@,
        name != "cd"@,
        name != "echo"@,
        name != "cls"@,
    ensures
        spec_interpret(seq![name] + args) == SpecCommand::Run(name, args),
{
    lemma_first_and_rest(name, args);
}

/// A line is read as its words without the leading and trailing white
/// space: when they cannot be read the line fails with the same error, and
/// otherwise it asks for what those words ask for.
pub proof fn law_line_is_its_trimmed_words(line: Seq<char>)
    ensures
        spec_tokenize(trimmed(line)) matches Err(e) ==> spec_command_for_line(line) == Err::<SpecCommand, ParseError>(e),
        spec_tokenize(trimmed(line)) matches Ok(words) ==> spec_command_for_line(line) == Ok::<SpecCommand, ParseError>(spec_interpret(words)),
{
}

/// White space at either end of a line never changes what it asks for: an
/// escaping backslash at the end of a line is not saved by a space after it.
pub proof fn law_outer_white_space_is_ignored(line: Seq<char>, c: char)
    requires
        is_white_space(c),
    ensures
        spec_command_for_line(seq![c] + line) == spec_command_for_line(line),
        spec_command_for_line(line + seq![c]) == spec_command_for_line(line),
{
    law_trimmed_ignores_outer_white_space(line, c);
}

} // verus!

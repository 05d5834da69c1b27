//! The interpreter of the command language: a line of text and the ledger go
//! in, the output and the changed ledger come out.

pub mod commands;

use vstd::prelude::*;
use vstd::slice::slice_subrange;
use vstd::slice::slice_to_vec;
use vstd::string::{StrSliceExecFns, StringExecFns};
use crate::decimal::{str_eq, to_chars};
pub use crate::error::CommandError;
use crate::error::{parse_failure, ErrorKind, ErrorView};
use crate::handler::commands::{
    handle, is_outcome, law_commands_keep_valid, run_command, texts,
};
use crate::model::Model;
use crate::state::ModelView;

verus! {

/// What the interpreter answers to a line.
pub struct CommandResult {
    /// The output of the command, or `Error: ` and the message of its failure.
    pub command_output: String,
    pub is_error: bool,
    /// Whether the line asks to end the session.
    pub is_quitting: bool,
}

/// What a `CommandResult` is.
pub struct CommandResultView {
    pub command_output: Seq<char>,
    pub is_error: bool,
    pub is_quitting: bool,
}

impl View for CommandResult {
    type V = CommandResultView;

    open spec fn view(&self) -> CommandResultView {
        CommandResultView {
            command_output: self.command_output@,
            is_error: self.is_error,
            is_quitting: self.is_quitting,
        }
    }
}

/// The interpreter with its ledger.
pub struct CommandHandler {
    model: Model,
}

impl View for CommandHandler {
    type V = ModelView;

    /// The state of the ledger.
    closed spec fn view(&self) -> ModelView {
        self.model@
    }
}

/// Whether `c` is white space: one of the characters with the Unicode
/// property `White_Space`. They are the controls U+0009 to U+000D, the space,
/// U+0085, the no-break space U+00A0, U+1680, the spaces U+2000 to U+200A,
/// the separators U+2028 and U+2029, U+202F, U+205F and U+3000.
pub open spec fn is_white_space(c: char) -> bool {
    let n = c as u32;
    ||| 0x09 <= n <= 0x0D
    ||| n == 0x20
    ||| n == 0x85
    ||| n == 0xA0
    ||| n == 0x1680
    ||| 0x2000 <= n <= 0x200A
    ||| n == 0x2028
    ||| n == 0x2029
    ||| n == 0x202F
    ||| n == 0x205F
    ||| n == 0x3000
}

/// Tells with `char::is_whitespace` whether a character is white space:
/// whether it has the Unicode property `White_Space`.
#[verifier::external_body]
fn char_is_whitespace(c: char) -> (r: bool)
    ensures
        r == is_white_space(c),
{
    c.is_whitespace()
}

/// The words that the text has so far, and the word that it is in.
pub open spec fn scan(s: Seq<char>) -> (Seq<Seq<char>>, Seq<char>)
    decreases s.len(),
{
    if s.len() == 0 {
        (Seq::empty(), Seq::empty())
    } else {
        let (words, word) = scan(s.drop_last());
        if !is_white_space(s.last()) {
            (words, word.push(s.last()))
        } else if word.len() > 0 {
            (words.push(word), Seq::empty())
        } else {
            (words, word)
        }
    }
}

/// The words of a text: its longest runs of characters that are not white
/// space, from the first to the last.
pub open spec fn tokens(s: Seq<char>) -> Seq<Seq<char>> {
    let (words, word) = scan(s);
    if word.len() > 0 {
        words.push(word)
    } else {
        words
    }
}

/// The message for a line without words.
pub open spec fn no_command_message() -> Seq<char> {
    "Please enter a command"@
}

/// The message for `quit` with an argument.
pub open spec fn unexpected_argument_message(arg: Seq<char>) -> Seq<char> {
    "Unexpected argument "@ + arg
}

/// What a command word with its arguments does: `quit` takes no argument,
/// changes nothing and asks to end the session; every other word is a command
/// on the ledger.
pub open spec fn run_words(m: ModelView, command: Seq<char>, args: Seq<Seq<char>>) -> (
    ModelView,
    Result<(Seq<char>, bool), ErrorView>,
) {
    if command == "quit"@ {
        if args.len() > 0 {
            (m, Err(parse_failure(unexpected_argument_message(args[0]))))
        } else {
            (m, Ok((Seq::empty(), true)))
        }
    } else {
        let (after, output) = run_command(m, command, args);
        match output {
            Ok(text) => (after, Ok((text, false))),
            Err(e) => (after, Err(e)),
        }
    }
}

/// What a line does: its first word is the command word, the other words are
/// the arguments.
pub open spec fn run_line(m: ModelView, line: Seq<char>) -> (
    ModelView,
    Result<(Seq<char>, bool), ErrorView>,
) {
    let words = tokens(line);
    if words.len() == 0 {
        (m, Err(parse_failure(no_command_message())))
    } else {
        run_words(m, words[0], words.drop_first())
    }
}

/// The interpreter as a function: from the state and a line to the state
/// that the line leaves and the answer to it.
pub open spec fn interpret(m: ModelView, line: Seq<char>) -> (ModelView, CommandResultView) {
    let (after, result) = run_line(m, line);
    match result {
        Ok((text, quitting)) => (
            after,
            CommandResultView { command_output: text, is_error: false, is_quitting: quitting },
        ),
        Err(e) => (
            after,
            CommandResultView {
                command_output: "Error: "@ + e.message,
                is_error: true,
                is_quitting: false,
            },
        ),
    }
}

/// Every line leaves a valid state valid. An answer that is an error begins
/// with `Error: `, does not end the session, and comes with the state as it
/// was. A line that asks to end the session changes nothing and has no
/// output.
pub proof fn law_lines_keep_valid(m: ModelView, line: Seq<char>)
    requires
        m.inv(),
    ensures
        interpret(m, line).0.inv(),
        interpret(m, line).1.is_error ==> interpret(m, line).0 == m && !interpret(
            m,
            line,
        ).1.is_quitting && "Error: "@.is_prefix_of(interpret(m, line).1.command_output),
        interpret(m, line).1.is_quitting ==> interpret(m, line).0 == m && interpret(
            m,
            line,
        ).1.command_output.len() == 0 && !interpret(m, line).1.is_error,
{
    let words = tokens(line);
    if words.len() > 0 {
        law_commands_keep_valid(m, words[0], words.drop_first());
    }
    if let Err(e) = run_line(m, line).1 {
        assert("Error: "@.is_prefix_of("Error: "@ + e.message));
    }
}

/// Whether a state and a result are what a line does.
pub open spec fn is_line_outcome(
    after: ModelView,
    r: Result<(String, bool), CommandError>,
    outcome: (ModelView, Result<(Seq<char>, bool), ErrorView>),
) -> bool {
    &&& after == outcome.0
    &&& match outcome.1 {
        Ok((text, quitting)) => r matches Ok(got) && got.0@ == text && got.1 == quitting,
        Err(e) => r matches Err(err) && err@ == e,
    }
}

/// The words of a line.
pub fn split_whitespace<'a>(line: &'a str) -> (r: Vec<&'a str>)
    ensures
        texts(r@) == tokens(line@),
{
    let chars = to_chars(line);
    let n = chars.len();
    let mut out: Vec<&'a str> = Vec::new();
    let mut start: usize = 0;
    let mut i: usize = 0;
    assert(line@.take(0) =~= Seq::<char>::empty());
    assert(texts(out@) =~= Seq::<Seq<char>>::empty());
    assert(line@.subrange(0, 0) =~= Seq::<char>::empty());
    while i < n
        invariant
            start <= i <= n,
            n == chars.len(),
            chars@ == line@,
            scan(line@.take(i as int)) == (texts(out@), line@.subrange(start as int, i as int)),
        decreases n - i,
    {
        let ghost before = texts(out@);
        let ghost word = line@.subrange(start as int, i as int);
        proof {
            assert(line@.take(i + 1).drop_last() =~= line@.take(i as int));
            assert(line@.take(i + 1).last() == chars@[i as int]);
        }
        if char_is_whitespace(chars[i]) {
            if start < i {
                out.push(line.substring_char(start, i));
                assert(texts(out@) =~= before.push(word));
            }
            start = i + 1;
            assert(line@.subrange(start as int, i + 1) =~= Seq::<char>::empty());
        } else {
            assert(line@.subrange(start as int, i + 1) =~= word.push(chars@[i as int]));
        }
        i += 1;
    }
    assert(line@.take(n as int) =~= line@);
    if start < n {
        let ghost before = texts(out@);
        out.push(line.substring_char(start, n));
        assert(texts(out@) =~= before.push(line@.subrange(start as int, n as int)));
    }
    out
}

impl CommandHandler {
    /// Whether the ledger of the interpreter is valid.
    pub closed spec fn wf(&self) -> bool {
        self.model.wf()
    }

    /// The state of a valid interpreter is valid.
    pub proof fn lemma_wf(&self)
        requires
            self.wf(),
        ensures
            self@.inv(),
    {
        self.model.lemma_wf();
    }

    /// The interpreter of a ledger.
    pub fn new(model: Model) -> (r: Self)
        requires
            model.wf(),
        ensures
            r.wf(),
            r@ == model@,
    {
        CommandHandler { model }
    }

    /// Runs a line and answers it. A line that fails changes nothing.
    pub fn handle_command(&mut self, command: String) -> (r: CommandResult)
        requires
            old(self).wf(),
        ensures
            final(self).wf(),
            (final(self)@, r@) == interpret(old(self)@, command@),
    {
        match self.handle_command_split(command) {
            Ok((command_output, is_quitting)) => CommandResult {
                command_output,
                is_error: false,
                is_quitting,
            },
            Err(err) => {
                let mut command_output = String::from_str("Error: ");
                command_output.append(err.message());
                CommandResult { command_output, is_error: true, is_quitting: false }
            },
        }
    }

    fn handle_command_split(&mut self, command: String) -> (r: Result<(String, bool), CommandError>)
        requires
            old(self).wf(),
        ensures
            final(self).wf(),
            is_line_outcome(final(self)@, r, run_line(old(self)@, command@)),
    {
        let words = split_whitespace(command.as_str());
        if words.len() == 0 {
            return Err(CommandError::fixed(ErrorKind::Parse, "Please enter a command"));
        }
        let all = words.as_slice();
        let rest = slice_to_vec(slice_subrange(all, 1, all.len()));
        assert(texts(rest@) =~= tokens(command@).drop_first());
        self.handle_command_args(words[0], rest)
    }

    fn handle_command_args(&mut self, command: &str, args: Vec<&str>) -> (r: Result<
        (String, bool),
        CommandError,
    >)
        requires
            old(self).wf(),
        ensures
            final(self).wf(),
            is_line_outcome(final(self)@, r, run_words(old(self)@, command@, texts(args@))),
    {
        if str_eq(command, "quit") {
            if args.len() > 0 {
                let mut message = String::from_str("Unexpected argument ");
                message.append(args[0]);
                return Err(CommandError::new(ErrorKind::Parse, message));
            }
            Ok((String::new(), true))
        } else {
            match self.handle_normal_command(command, args) {
                Ok(message) => Ok((message, false)),
                Err(e) => Err(e),
            }
        }
    }

    fn handle_normal_command(&mut self, command: &str, args: Vec<&str>) -> (r: Result<
        String,
        CommandError,
    >)
        requires
            old(self).wf(),
        ensures
            final(self).wf(),
            is_outcome(final(self)@, r, run_command(old(self)@, command@, texts(args@))),
    {
        handle(command, &mut self.model, args)
    }
}

} // verus!

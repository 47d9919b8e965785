//! Turning a resolved command into what the shell runs, and the small
//! decisions around it.
use vstd::prelude::*;

verus! {

/// The words of `ws` with one space between each two.
pub open spec fn joined(ws: Seq<Seq<char>>) -> Seq<char>
    decreases ws.len(),
{
    if ws.len() == 0 {
        Seq::empty()
    } else if ws.len() == 1 {
        ws[0]
    } else {
        joined(ws.drop_last()) + seq![' '] + ws.last()
    }
}

/// The command line run for `command` with passthrough `arguments`: the
/// joined arguments follow after one space, unless they join to nothing.
pub open spec fn command_line_of(command: Seq<char>, arguments: Seq<Seq<char>>) -> Seq<char> {
    if joined(arguments).len() == 0 {
        command
    } else {
        command + seq![' '] + joined(arguments)
    }
}

/// The flags that go before the command line for a given shell.
pub open spec fn shell_flags(shell: Seq<char>) -> Seq<Seq<char>> {
    if shell == "/bin/zsh"@ {
        seq!["-i"@, "-c"@]
    } else if shell == "/bin/sh"@ {
        seq!["-c"@]
    } else {
        seq![]
    }
}

/// Where the store lives below a home directory.
pub open spec fn config_file_path(home: Seq<char>) -> Seq<char> {
    if home.len() == 0 {
        ".config/taco/taco.json"@
    } else if home.last() == '/' {
        home + ".config/taco/taco.json"@
    } else {
        home + "/.config/taco/taco.json"@
    }
}

/// Joins `words` with single spaces.
pub fn join_words(words: &Vec<String>) -> (r: String)
    ensures
        r@ == joined(words.deep_view()),
{
    let mut r = String::new();
    let mut i: usize = 0;
    while i < words.len()
        invariant
            i <= words@.len(),
            r@ == joined(words.deep_view().take(i as int)),
        decreases words@.len() - i,
    {
        let ghost ws = words.deep_view().take(i + 1);
        proof {
            assert(ws.drop_last() =~= words.deep_view().take(i as int));
            assert(ws.last() == words@[i as int]@);
            reveal_strlit(" ");
        }
        if i > 0 {
            r.append(" ");
        }
        r.append(words[i].as_str());
        proof {
            if i == 0 {
                assert(ws =~= seq![words@[0]@]);
                assert(r@ =~= ws[0]);
            } else {
                assert(r@ =~= joined(ws));
            }
        }
        i = i + 1;
    }
    proof {
        assert(words.deep_view().take(i as int) =~= words.deep_view());
    }
    r
}

/// The command line that runs `command` with the passthrough `arguments`.
pub fn command_line(command: &str, arguments: &Vec<String>) -> (r: String)
    ensures
        r@ == command_line_of(command@, arguments.deep_view()),
{
    let extra = join_words(arguments);
    let mut line = String::from_str(command);
    if extra.unicode_len() > 0 {
        line.append(" ");
        line.append(extra.as_str());
        proof {
            reveal_strlit(" ");
            assert(line@ =~= command@ + seq![' '] + extra@);
        }
    }
    line
}

/// The arguments handed to `shell`: its flags, then the command line.
pub fn shell_arguments(shell: &str, line: String) -> (r: Vec<String>)
    ensures
        r.deep_view() == shell_flags(shell@).push(line@),
{
    let name = shell.to_owned();
    let mut r: Vec<String> = Vec::new();
    if name == "/bin/zsh".to_owned() {
        r.push("-i".to_owned());
        r.push("-c".to_owned());
    } else if name == "/bin/sh".to_owned() {
        r.push("-c".to_owned());
    }
    r.push(line);
    proof {
        assert(r.deep_view() =~= shell_flags(shell@).push(line@));
    }
    r
}

/// The path of the store for the home directory `home`, as `Path::join`
/// composes it.
pub fn config_file_in(home: &str) -> (r: String)
    ensures
        r@ == config_file_path(home@),
{
    let n = home.unicode_len();
    let mut r = String::from_str(home);
    if n > 0 && home.get_char(n - 1) == '/' {
        r.append(".config/taco/taco.json");
    } else if n > 0 {
        r.append("/.config/taco/taco.json");
    } else {
        r.append(".config/taco/taco.json");
        proof {
            assert(r@ =~= ".config/taco/taco.json"@);
        }
    }
    r
}

/// What to do with a resolved command.
#[derive(Debug, PartialEq, Eq)]
pub enum Invocation {
    /// Show the command text as it is stored.
    Print(String),
    /// Run the shell with these arguments.
    Run(Vec<String>),
}

/// Prints `command` unchanged when `print` is set; otherwise runs `shell`
/// on the command line that appends the passthrough `arguments`.
pub fn invocation(print: bool, command: &str, arguments: &Vec<String>, shell: &str) -> (r:
    Invocation)
    ensures
        print ==> (r matches Invocation::Print(t) && t@ == command@),
        !print ==> (r matches Invocation::Run(a) && a.deep_view() == shell_flags(shell@).push(
            command_line_of(command@, arguments.deep_view()),
        )),
{
    if print {
        Invocation::Print(String::from_str(command))
    } else {
        Invocation::Run(shell_arguments(shell, command_line(command, arguments)))
    }
}

/// What `str::trim` returns: the characters with leading and trailing white
/// space removed.
pub uninterp spec fn trimmed(s: Seq<char>) -> Seq<char>;

/// Relies on `str::trim`: the result depends on the characters alone.
#[verifier::external_body]
fn trim(s: &str) -> (r: &str)
    ensures
        r@ == trimmed(s@),
{
    s.trim()
}

/// An already trimmed answer agrees: it is `y` or `Y`.
pub fn is_yes(answer: &str) -> (r: bool)
    ensures
        r == (answer@ == seq!['y'] || answer@ == seq!['Y']),
{
    if answer.unicode_len() != 1 {
        return false;
    }
    let c = answer.get_char(0);
    proof {
        assert(answer@ =~= seq![c]);
    }
    c == 'y' || c == 'Y'
}

/// A typed answer agrees once surrounding white space is removed.
pub fn confirmed(answer: &str) -> (r: bool)
    ensures
        r == (trimmed(answer@) == seq!['y'] || trimmed(answer@) == seq!['Y']),
{
    is_yes(trim(answer))
}

} // verus!

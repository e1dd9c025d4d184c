use vstd::prelude::*;
use crate::text::{chars_of, string_of, push_char, push_all, same_text, is_space, char_is_space};
use crate::suggest::{Shell, shell_named, path_join, join_path};
use crate::matching::{parsed_usize, parse_usize, best_for, best_match, entries_view};
use crate::names::strs_view;

verus! {

/// Settings for mining, read from the command line.
pub struct Opts {
    pub path: String,
    pub min: usize,
    pub top: usize,
    pub shell: Shell,
}

/// What the command line asks for: a run with settings, the help text, or an error
/// with its message.
pub enum OptParse {
    Run(Opts),
    Help,
    Fail(String),
}

/// What the command line asks for, as a mathematical value.
pub enum OptParseV {
    Run(Seq<char>, usize, usize, Shell),
    Help,
    Fail(Seq<char>),
}

/// The options read so far: settings with the history file if one was named, the
/// help text, or an error with its message.
pub enum OptScan {
    Run(Option<Seq<char>>, usize, usize, Shell),
    Help,
    Fail(Seq<char>),
}

impl View for OptParse {
    type V = OptParseV;

    open spec fn view(&self) -> OptParseV {
        match self {
            OptParse::Run(o) => OptParseV::Run(
                o.path@,
                o.min,
                o.top,
                o.shell,
            ),
            OptParse::Help => OptParseV::Help,
            OptParse::Fail(m) => OptParseV::Fail(m@),
        }
    }
}

/// Reads the options from position `i` on, given the settings so far: `--min N`,
/// `--top N`, `--shell NAME`, `-h`/`--help`; any other word is the history file.
pub open spec fn opts_from(
    args: Seq<Seq<char>>,
    i: int,
    path: Option<Seq<char>>,
    min: usize,
    top: usize,
    shell: Shell,
) -> OptScan
    decreases args.len() - i,
{
    if i < 0 || i >= args.len() {
        OptScan::Run(path, min, top, shell)
    } else {
        let a = args[i];
        let next = if i + 1 < args.len() { Some(args[i + 1]) } else { None };
        if a == "--min"@ {
            match next {
                Some(v) => match parsed_usize(v) {
                    Some(n) => opts_from(args, i + 2, path, n, top, shell),
                    None => OptScan::Fail("--min requires a number"@),
                },
                None => OptScan::Fail("--min requires a number"@),
            }
        } else if a == "--top"@ {
            match next {
                Some(v) => match parsed_usize(v) {
                    Some(n) => opts_from(args, i + 2, path, min, n, shell),
                    None => OptScan::Fail("--top requires a number"@),
                },
                None => OptScan::Fail("--top requires a number"@),
            }
        } else if a == "--shell"@ {
            match next {
                Some(v) => match shell_named(v) {
                    Some(s) => opts_from(args, i + 2, path, min, top, s),
                    None => OptScan::Fail("--shell requires one of: fish, bash, zsh"@),
                },
                None => OptScan::Fail("--shell requires one of: fish, bash, zsh"@),
            }
        } else if a == "-h"@ || a == "--help"@ {
            OptScan::Help
        } else {
            opts_from(args, i + 1, Some(a), min, top, shell)
        }
    }
}

/// The history file: the one named, else `.local/share/fish/fish_history` under the
/// home directory.
pub open spec fn history_path(path: Option<Seq<char>>, home: Seq<char>) -> Seq<char> {
    match path {
        Some(p) => p,
        None => path_join(home, ".local/share/fish/fish_history"@),
    }
}

/// The history file to read, given the one named (if any) and `$HOME`.
pub fn history_file(path: Option<&str>, home: &str) -> (r: String)
    ensures
        r@ == history_path(
            match path {
                Some(p) => Some(p@),
                None => None,
            },
            home@,
        ),
{
    match path {
        Some(p) => {
            let v = chars_of(p);
            assert(v@.subrange(0, v.len() as int) =~= v@);
            string_of(&v, 0, v.len())
        },
        None => join_path(home, ".local/share/fish/fish_history"),
    }
}

/// What the command line asks for, given `$HOME` for the default history file.
pub open spec fn opts_read(args: Seq<Seq<char>>, shell: Shell, home: Seq<char>) -> OptParseV {
    match opts_from(args, 0, None, 3, 25, shell) {
        OptScan::Run(p, min, top, sh) => OptParseV::Run(history_path(p, home), min, top, sh),
        OptScan::Help => OptParseV::Help,
        OptScan::Fail(m) => OptParseV::Fail(m),
    }
}

/// Reads the mining options; the history file defaults to the fish history under
/// `home`, the minimum to 3, the count kept to 25, the shell to `shell`.
#[verifier::loop_isolation(false)]
pub fn parse_opts(args: &[String], shell: Shell, home: &str) -> (r: OptParse)
    ensures
        r@ == opts_read(strs_view(args@), shell, home@),
{
    let ghost av = strs_view(args@);
    let mut path: Option<String> = None;
    let mut min: usize = 3;
    let mut top: usize = 25;
    let mut sh = shell;
    let mut i: usize = 0;
    while i < args.len()
        invariant
            i <= args.len(),
            av == strs_view(args@),
            opts_from(av, 0, None, 3, 25, shell) == opts_from(
                av,
                i as int,
                match &path {
                    Some(p) => Some(p@),
                    None => None,
                },
                min,
                top,
                sh,
            ),
        decreases args.len() - i,
    {
        let a = args[i].as_str();
        assert(av[i as int] == a@);
        if i + 1 < args.len() {
            assert(av[i + 1] == args@[i + 1]@);
        }
        if same_text(a, "--min") {
            if i + 1 < args.len() {
                match parse_usize(args[i + 1].as_str()) {
                    Some(n) => {
                        min = n;
                        i += 2;
                        continue;
                    },
                    None => {},
                }
            }
            return OptParse::Fail(String::from_str("--min requires a number"));
        } else if same_text(a, "--top") {
            if i + 1 < args.len() {
                match parse_usize(args[i + 1].as_str()) {
                    Some(n) => {
                        top = n;
                        i += 2;
                        continue;
                    },
                    None => {},
                }
            }
            return OptParse::Fail(String::from_str("--top requires a number"));
        } else if same_text(a, "--shell") {
            if i + 1 < args.len() {
                match Shell::parse(args[i + 1].as_str()) {
                    Some(s) => {
                        sh = s;
                        i += 2;
                        continue;
                    },
                    None => {},
                }
            }
            return OptParse::Fail(String::from_str("--shell requires one of: fish, bash, zsh"));
        } else if same_text(a, "-h") || same_text(a, "--help") {
            return OptParse::Help;
        } else {
            path = Some(args[i].clone());
            i += 1;
        }
    }
    let file = match &path {
        Some(p) => history_file(Some(p.as_str()), home),
        None => history_file(None, home),
    };
    OptParse::Run(Opts { path: file, min, top, shell: sh })
}

/// Reads the arguments of `match` from position `i` on: `--field name` asks for the
/// name alone, `--` ends the options, other words are the command.
pub open spec fn match_args(rest: Seq<Seq<char>>, i: int, field: bool, parts: Seq<Seq<char>>) -> (bool, Seq<Seq<char>>)
    decreases rest.len() - i,
{
    if i < 0 || i >= rest.len() {
        (field, parts)
    } else if rest[i] == "--field"@ {
        if i + 1 < rest.len() {
            match_args(rest, i + 2, rest[i + 1] == "name"@, parts)
        } else {
            (false, parts)
        }
    } else if rest[i] == "--"@ {
        (field, parts + rest.subrange(i + 1, rest.len() as int))
    } else {
        match_args(rest, i + 1, field, parts.push(rest[i]))
    }
}

/// Words joined with single spaces.
pub open spec fn join_spaces(parts: Seq<Seq<char>>) -> Seq<char>
    decreases parts.len(),
{
    if parts.len() == 0 {
        Seq::empty()
    } else if parts.len() == 1 {
        parts[0]
    } else {
        join_spaces(parts.drop_last()).push(' ') + parts.last()
    }
}

/// Text made of whitespace only (or nothing).
pub open spec fn blank(s: Seq<char>) -> bool {
    forall|k: int| 0 <= k < s.len() ==> is_space(#[trigger] s[k])
}

/// The line `match` prints for its arguments, if any: nothing for a blank command
/// or one no manifest function generalizes; otherwise the function's name alone
/// when asked for, else a suggestion with the arguments.
pub open spec fn match_line(rest: Seq<Seq<char>>, manifest: Seq<(Seq<char>, Seq<char>)>) -> Option<Seq<char>> {
    let (field, parts) = match_args(rest, 0, false, Seq::empty());
    let cmd = join_spaces(parts);
    if blank(cmd) {
        None
    } else {
        match best_for(cmd, manifest) {
            None => None,
            Some((name, args)) => if field {
                Some(name)
            } else {
                Some("histmine: simplified to `"@ + name + "` -> try: "@ + name + " "@ + args)
            },
        }
    }
}

fn is_blank(s: &str) -> (b: bool)
    ensures
        b == blank(s@),
{
    let v = chars_of(s);
    let mut k: usize = 0;
    while k < v.len()
        invariant
            v@ == s@,
            k <= v.len(),
            forall|i: int| 0 <= i < k ==> is_space(#[trigger] v@[i]),
        decreases v.len() - k,
    {
        if !char_is_space(v[k]) {
            return false;
        }
        k += 1;
    }
    true
}

/// The line to print for `match` with these arguments and manifest entries.
#[verifier::loop_isolation(false)]
pub fn match_reply(rest: &[String], manifest: &[(String, String)]) -> (r: Option<String>)
    ensures
        match r {
            Some(l) => match_line(strs_view(rest@), entries_view(manifest@)) == Some(l@),
            None => match_line(strs_view(rest@), entries_view(manifest@)) is None,
        },
{
    let ghost rv = strs_view(rest@);
    let mut field_name = false;
    let mut parts: Vec<String> = Vec::new();
    let mut i: usize = 0;
    let mut done = false;
    assert(strs_view(parts@) =~= Seq::<Seq<char>>::empty());
    while i < rest.len() && !done
        invariant
            i <= rest.len(),
            rv == strs_view(rest@),
            !done ==> match_args(rv, 0, false, Seq::empty()) == match_args(rv, i as int, field_name, strs_view(parts@)),
            done ==> match_args(rv, 0, false, Seq::empty()) == (field_name, strs_view(parts@)),
        decreases rest.len() - i + (if done { 0int } else { 1int }),
    {
        let a = rest[i].as_str();
        assert(rv[i as int] == a@);
        if same_text(a, "--field") {
            if i + 1 < rest.len() {
                assert(rv[i + 1] == rest@[i + 1]@);
                field_name = same_text(rest[i + 1].as_str(), "name");
                i += 2;
            } else {
                field_name = false;
                i = rest.len();
            }
        } else if same_text(a, "--") {
            let ghost p0 = strs_view(parts@);
            let mut k = i + 1;
            while k < rest.len()
                invariant
                    i < k <= rest.len(),
                    rv == strs_view(rest@),
                    strs_view(parts@) == p0 + rv.subrange(i + 1, k as int),
                decreases rest.len() - k,
            {
                let w = rest[k].clone();
                assert(strs_view(parts@.push(w)) =~= strs_view(parts@).push(w@));
                parts.push(w);
                assert(p0 + rv.subrange(i + 1, k + 1) =~= (p0 + rv.subrange(i + 1, k as int)).push(rv[k as int]));
                k += 1;
            }
            done = true;
        } else {
            let w = rest[i].clone();
            assert(strs_view(parts@.push(w)) =~= strs_view(parts@).push(w@));
            parts.push(w);
            i += 1;
        }
    }
    let mut cmd = String::new();
    let ghost pv = strs_view(parts@);
    let mut k: usize = 0;
    while k < parts.len()
        invariant
            k <= parts.len(),
            pv == strs_view(parts@),
            cmd@ == join_spaces(pv.take(k as int)),
        decreases parts.len() - k,
    {
        assert(pv.take(k + 1).drop_last() =~= pv.take(k as int));
        assert(pv.take(k + 1).last() == parts@[k as int]@);
        if k > 0 {
            push_char(&mut cmd, ' ');
        } else {
            assert(cmd@ =~= Seq::<char>::empty());
        }
        push_all(&mut cmd, parts[k].as_str());
        if k == 0 {
            assert(cmd@ =~= join_spaces(pv.take(1)));
        }
        k += 1;
    }
    assert(pv.take(parts.len() as int) =~= pv);
    if is_blank(cmd.as_str()) {
        return None;
    }
    match best_match(cmd.as_str(), manifest) {
        Some((name, args)) => {
            if field_name {
                Some(name)
            } else {
                let mut line = String::new();
                push_all(&mut line, "histmine: simplified to `");
                push_all(&mut line, name.as_str());
                push_all(&mut line, "` -> try: ");
                push_all(&mut line, name.as_str());
                push_all(&mut line, " ");
                push_all(&mut line, args.as_str());
                Some(line)
            }
        },
        None => None,
    }
}


/// What the command line asks the program to do.
#[derive(Clone, Copy, PartialEq, Eq, Structural)]
pub enum Command {
    /// `match ...`: suggest the function a command is an instance of.
    Match,
    /// `install ...`: mine and install.
    Install,
    /// `uninstall ...`: undo an install.
    Uninstall,
    /// `--install-hook` or `--print-hook` somewhere: install the hook, or only print it.
    Hook { print_only: bool },
    /// Anything else: mine and print.
    Mine,
}

/// Some argument is `w`.
pub open spec fn has_arg(args: Seq<Seq<char>>, w: Seq<char>) -> bool {
    exists|i: int| 0 <= i < args.len() && args[i] == w
}

/// The command the arguments (program name left out) ask for: by the first word,
/// else by a hook flag anywhere, else mining.
pub open spec fn command_for(args: Seq<Seq<char>>) -> Command {
    if args.len() > 0 && args[0] == "match"@ {
        Command::Match
    } else if args.len() > 0 && args[0] == "install"@ {
        Command::Install
    } else if args.len() > 0 && args[0] == "uninstall"@ {
        Command::Uninstall
    } else if has_arg(args, "--install-hook"@) || has_arg(args, "--print-hook"@) {
        Command::Hook { print_only: has_arg(args, "--print-hook"@) }
    } else {
        Command::Mine
    }
}

fn find_arg(args: &[String], w: &str) -> (b: bool)
    ensures
        b == has_arg(strs_view(args@), w@),
{
    let ghost av = strs_view(args@);
    let mut i: usize = 0;
    while i < args.len()
        invariant
            i <= args.len(),
            av == strs_view(args@),
            forall|k: int| 0 <= k < i ==> av[k] != w@,
        decreases args.len() - i,
    {
        assert(av[i as int] == args@[i as int]@);
        if same_text(args[i].as_str(), w) {
            return true;
        }
        i += 1;
    }
    false
}

/// The command the arguments ask for.
pub fn command_of(args: &[String]) -> (c: Command)
    ensures
        c == command_for(strs_view(args@)),
{
    let ghost av = strs_view(args@);
    if args.len() > 0 {
        assert(av[0] == args@[0]@);
        let first = args[0].as_str();
        if same_text(first, "match") {
            return Command::Match;
        } else if same_text(first, "install") {
            return Command::Install;
        } else if same_text(first, "uninstall") {
            return Command::Uninstall;
        }
    }
    let install = find_arg(args, "--install-hook");
    let print = find_arg(args, "--print-hook");
    if install || print {
        Command::Hook { print_only: print }
    } else {
        Command::Mine
    }
}

} // verus!

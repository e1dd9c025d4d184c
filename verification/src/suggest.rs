use vstd::prelude::*;
use crate::text::{chars_of, string_of, push_char, push_all, same_text, contains, contains_str, occurs_at};
use crate::names::after_last;
use crate::words::is_ascii_digit;
use crate::text::has_char;
use crate::mine::{Mined, mined_view, MinedV};

verus! {

/// The shells functions can be rendered for.
#[derive(Clone, Copy, PartialEq, Eq, Structural)]
pub enum Shell {
    Fish,
    Bash,
    Zsh,
}

/// The name of a shell.
pub open spec fn shell_name(sh: Shell) -> Seq<char> {
    match sh {
        Shell::Fish => "fish"@,
        Shell::Bash => "bash"@,
        Shell::Zsh => "zsh"@,
    }
}

/// The shell a name stands for.
pub open spec fn shell_named(s: Seq<char>) -> Option<Shell> {
    if s == "fish"@ {
        Some(Shell::Fish)
    } else if s == "bash"@ {
        Some(Shell::Bash)
    } else if s == "zsh"@ {
        Some(Shell::Zsh)
    } else {
        None
    }
}

impl Shell {
    /// The shell named `s`: `fish`, `bash` or `zsh`.
    pub fn parse(s: &str) -> (r: Option<Shell>)
        ensures
            r == shell_named(s@),
    {
        if same_text(s, "fish") {
            Some(Shell::Fish)
        } else if same_text(s, "bash") {
            Some(Shell::Bash)
        } else if same_text(s, "zsh") {
            Some(Shell::Zsh)
        } else {
            None
        }
    }

    /// The name of the shell.
    pub fn name(self) -> (r: &'static str)
        ensures
            r@ == shell_name(self),
    {
        match self {
            Shell::Fish => "fish",
            Shell::Bash => "bash",
            Shell::Zsh => "zsh",
        }
    }
}

/// A name read back gives the shell it names.
pub proof fn lemma_shell_name_parses(sh: Shell)
    ensures
        shell_named(shell_name(sh)) == Some(sh),
{
    reveal_strlit("fish");
    reveal_strlit("bash");
    reveal_strlit("zsh");
    assert("fish"@ != "bash"@ && "fish"@ != "zsh"@ && "bash"@ != "zsh"@) by {
        assert("fish"@[0] != "bash"@[0]);
        assert("fish"@.len() != "zsh"@.len());
        assert("bash"@.len() != "zsh"@.len());
    }
}

/// The shell a `$SHELL` value points at: zsh or bash when its last path component
/// says so, fish otherwise.
pub open spec fn shell_of_path(sh: Seq<char>) -> Shell {
    let base = after_last(sh, '/');
    if contains(base, "zsh"@) {
        Shell::Zsh
    } else if contains(base, "bash"@) {
        Shell::Bash
    } else {
        Shell::Fish
    }
}

/// The shell a `$SHELL` value points at.
pub fn detect_shell(sh: &str) -> (r: Shell)
    ensures
        r == shell_of_path(sh@),
{
    let v = chars_of(sh);
    let mut i: usize = v.len();
    while i > 0 && v[i - 1] != '/'
        invariant
            i <= v.len(),
            forall|k: int| i <= k < v.len() ==> v@[k] != '/',
        decreases i,
    {
        i -= 1;
    }
    proof {
        crate::names::lemma_after_last(v@, '/', i as int);
    }
    let base = string_of(&v, i, v.len());
    if contains_str(base.as_str(), "zsh") {
        Shell::Zsh
    } else if contains_str(base.as_str(), "bash") {
        Shell::Bash
    } else {
        Shell::Fish
    }
}

/// A relative path appended to `base`, with a `/` between them unless `base` is
/// empty or already ends with one.
pub open spec fn path_join(base: Seq<char>, rel: Seq<char>) -> Seq<char> {
    if base.len() > 0 && base.last() != '/' {
        base + seq!['/'] + rel
    } else {
        base + rel
    }
}

/// `rel` appended to `base` as a path.
pub(crate) fn join_path(base: &str, rel: &str) -> (r: String)
    ensures
        r@ == path_join(base@, rel@),
{
    let bv = chars_of(base);
    let mut out = string_of(&bv, 0, bv.len());
    assert(bv@.subrange(0, bv.len() as int) =~= bv@);
    if bv.len() > 0 && bv[bv.len() - 1] != '/' {
        push_char(&mut out, '/');
    }
    push_all(&mut out, rel);
    out
}

/// A directory from an XDG variable when it is set and not empty, otherwise the
/// given subdirectory of the home directory.
pub open spec fn xdg_dir(var: Option<Seq<char>>, home: Seq<char>, fallback: Seq<char>) -> Seq<char> {
    match var {
        Some(v) => if v.len() > 0 { v } else { path_join(home, fallback) },
        None => path_join(home, fallback),
    }
}

fn dir_from(var: Option<&str>, home: &str, fallback: &str) -> (r: String)
    ensures
        r@ == xdg_dir(
            match var {
                Some(v) => Some(v@),
                None => None,
            },
            home@,
            fallback@,
        ),
{
    match var {
        Some(v) => {
            if !v.is_empty() {
                let vv = chars_of(v);
                assert(vv@.subrange(0, vv.len() as int) =~= vv@);
                string_of(&vv, 0, vv.len())
            } else {
                join_path(home, fallback)
            }
        },
        None => join_path(home, fallback),
    }
}

/// The path of the manifest of mined functions, given `$XDG_DATA_HOME` (when it is
/// set) and `$HOME`.
pub fn manifest_path(xdg_data_home: Option<&str>, home: &str) -> (r: String)
    ensures
        r@ == path_join(
            xdg_dir(
                match xdg_data_home {
                    Some(v) => Some(v@),
                    None => None,
                },
                home@,
                ".local/share"@,
            ),
            "histmine/manifest.tsv"@,
        ),
{
    let dir = dir_from(xdg_data_home, home, ".local/share");
    join_path(dir.as_str(), "histmine/manifest.tsv")
}

/// The startup file a shell's hook goes into, given `$XDG_CONFIG_HOME` (when it is
/// set) and `$HOME`.
pub fn rc_path(shell: Shell, xdg_config_home: Option<&str>, home: &str) -> (r: String)
    ensures
        r@ == match shell {
            Shell::Fish => path_join(
                xdg_dir(
                    match xdg_config_home {
                        Some(v) => Some(v@),
                        None => None,
                    },
                    home@,
                    ".config"@,
                ),
                "fish/conf.d/histmine.fish"@,
            ),
            Shell::Bash => path_join(home@, ".bashrc"@),
            Shell::Zsh => path_join(home@, ".zshrc"@),
        },
{
    match shell {
        Shell::Fish => {
            let dir = dir_from(xdg_config_home, home, ".config");
            join_path(dir.as_str(), "fish/conf.d/histmine.fish")
        },
        Shell::Bash => join_path(home, ".bashrc"),
        Shell::Zsh => join_path(home, ".zshrc"),
    }
}

/// `$argv[` starts at position `i` of `s`.
pub open spec fn argv_mark_at(s: Seq<char>, i: int) -> bool {
    0 <= i && i + 6 <= s.len() && s[i] == '$' && s[i + 1] == 'a' && s[i + 2] == 'r' && s[i + 3]
        == 'g' && s[i + 4] == 'v' && s[i + 5] == '['
}

/// The end of the run of ASCII digits starting at `j`.
pub open spec fn digits_end(s: Seq<char>, j: int) -> int
    decreases s.len() - j,
{
    if 0 <= j < s.len() && is_ascii_digit(s[j]) {
        digits_end(s, j + 1)
    } else {
        j
    }
}

/// The run of digits from `j` ends within `s`, holds digits only, and stops at a
/// non-digit or at the end.
pub proof fn lemma_digits_end(s: Seq<char>, j: int)
    requires
        0 <= j <= s.len(),
    ensures
        j <= digits_end(s, j) <= s.len(),
        forall|k: int| j <= k < digits_end(s, j) ==> is_ascii_digit(#[trigger] s[k]),
        digits_end(s, j) < s.len() ==> !is_ascii_digit(s[digits_end(s, j)]),
    decreases s.len() - j,
{
    if j < s.len() && is_ascii_digit(s[j]) {
        lemma_digits_end(s, j + 1);
    }
}

/// A fish slot `$argv[N]` starts at `i`.
pub open spec fn slot_at(s: Seq<char>, i: int) -> bool {
    argv_mark_at(s, i) && {
        let j = digits_end(s, i + 6);
        j < s.len() && s[j] == ']' && j > i + 6
    }
}

/// The POSIX form of a fish body from position `i` on, `inq` telling whether `i`
/// is inside double quotes: each slot `$argv[N]` becomes `$N`, wrapped in double
/// quotes when outside them; backslash escapes are copied as they are.
pub open spec fn posix(s: Seq<char>, i: int, inq: bool) -> Seq<char>
    decreases s.len() - i,
{
    if i < 0 || i >= s.len() {
        Seq::empty()
    } else if s[i] == '\\' && i + 1 < s.len() {
        seq![s[i], s[i + 1]] + posix(s, i + 2, inq)
    } else if s[i] == '"' {
        seq!['"'] + posix(s, i + 1, !inq)
    } else if slot_at(s, i) {
        let j = digits_end(s, i + 6);
        proof {
            lemma_digits_end(s, i + 6);
        }
        let num = s.subrange(i + 6, j);
        (if inq { seq!['$'] + num } else { seq!['"', '$'] + num + seq!['"'] }) + posix(s, j + 1, inq)
    } else {
        seq![s[i]] + posix(s, i + 1, inq)
    }
}

/// The number of `"` characters in `t`.
pub open spec fn dquote_count(t: Seq<char>) -> nat
    decreases t.len(),
{
    if t.len() == 0 {
        0
    } else {
        (if t[0] == '"' { 1nat } else { 0nat }) + dquote_count(t.drop_first())
    }
}

proof fn lemma_posix_plain_prefix(p: Seq<char>, r: Seq<char>, i: int, inq: bool)
    requires
        0 <= i <= p.len(),
        forall|k: int| 0 <= k < p.len() ==> (#[trigger] p[k]) != '\\' && p[k] != '$',
    ensures
        posix(p + r, i, inq) == p.subrange(i, p.len() as int) + posix(
            p + r,
            p.len() as int,
            if dquote_count(p.subrange(i, p.len() as int)) % 2 == 1 { !inq } else { inq },
        ),
    decreases p.len() - i,
{
    let s = p + r;
    let t = p.subrange(i, p.len() as int);
    if i < p.len() {
        assert(s[i] == p[i]);
        assert(t.drop_first() =~= p.subrange(i + 1, p.len() as int));
        assert(t[0] == p[i]);
        if p[i] == '"' {
            lemma_posix_plain_prefix(p, r, i + 1, !inq);
        } else {
            assert(!argv_mark_at(s, i));
            lemma_posix_plain_prefix(p, r, i + 1, inq);
        }
        assert(seq![p[i]] + p.subrange(i + 1, p.len() as int) =~= t);
    } else {
        assert(t =~= Seq::<char>::empty());
    }
}

/// How a slot is written for bash and zsh: a fish body made of text `p` with no
/// backslash and no `$`, then a slot `$argv[N]`, then anything, is rewritten as `p`
/// followed by `"$N"` when `p` closes every double quote it opens (an even number
/// of `"`), and by a bare `$N` when a double quote is still open.
pub proof fn lemma_posix_slot_quoting(p: Seq<char>, n: Seq<char>, q: Seq<char>)
    requires
        forall|k: int| 0 <= k < p.len() ==> (#[trigger] p[k]) != '\\' && p[k] != '$',
        n.len() > 0,
        forall|k: int| 0 <= k < n.len() ==> '0' <= #[trigger] n[k] <= '9',
    ensures
        ({
            let out = posix(p + "$argv["@ + n + "]"@ + q, 0, false);
            let slot = if dquote_count(p) % 2 == 0 { seq!['"', '$'] + n + seq!['"'] } else { seq!['$'] + n };
            out.len() >= p.len() + slot.len() && out.subrange(0, (p.len() + slot.len()) as int) == p + slot
        }),
{
    reveal_strlit("$argv[");
    reveal_strlit("]");
    let r = "$argv["@ + n + "]"@ + q;
    let s = p + r;
    assert(s =~= p + r);
    lemma_posix_plain_prefix(p, r, 0, false);
    assert(p.subrange(0, p.len() as int) =~= p);
    let i = p.len() as int;
    let inq = dquote_count(p) % 2 == 1;
    assert(s[i] == '$');
    assert(argv_mark_at(s, i));
    lemma_digits_end(s, i + 6);
    assert forall|k: int| i + 6 <= k < i + 6 + n.len() implies is_ascii_digit(#[trigger] s[k]) by {
        assert(s[k] == n[k - i - 6]);
    }
    assert(s[i + 6 + n.len()] == ']');
    lemma_digits_run(s, i + 6, i + 6 + n.len());
    assert(slot_at(s, i));
    assert(s.subrange(i + 6, i + 6 + n.len()) =~= n);
    let slot = if inq { seq!['$'] + n } else { seq!['"', '$'] + n + seq!['"'] };
    assert(posix(s, i, inq) == slot + posix(s, i + 7 + n.len(), inq));
    let out = posix(s, 0, false);
    assert(out == p + (slot + posix(s, i + 7 + n.len(), inq)));
    assert(out.subrange(0, (p.len() + slot.len()) as int) =~= p + slot);
    assert(p + "$argv["@ + n + "]"@ + q =~= s);
}

proof fn lemma_digits_run(s: Seq<char>, j: int, e: int)
    requires
        0 <= j <= e < s.len(),
        forall|k: int| j <= k < e ==> is_ascii_digit(#[trigger] s[k]),
        !is_ascii_digit(s[e]),
    ensures
        digits_end(s, j) == e,
    decreases e - j,
{
    if j < e {
        lemma_digits_run(s, j + 1, e);
    }
}

proof fn lemma_posix_copies_from(p: Seq<char>, i: int, inq: bool)
    requires
        0 <= i <= p.len(),
        forall|k: int| 0 <= k < p.len() ==> (#[trigger] p[k]) != '$',
    ensures
        posix(p, i, inq) == p.subrange(i, p.len() as int),
    decreases p.len() - i,
{
    if i < p.len() {
        if p[i] == '\\' && i + 1 < p.len() {
            lemma_posix_copies_from(p, i + 2, inq);
            assert(seq![p[i], p[i + 1]] + p.subrange(i + 2, p.len() as int) =~= p.subrange(i, p.len() as int));
        } else if p[i] == '"' {
            lemma_posix_copies_from(p, i + 1, !inq);
            assert(seq![p[i]] + p.subrange(i + 1, p.len() as int) =~= p.subrange(i, p.len() as int));
        } else {
            assert(!argv_mark_at(p, i));
            lemma_posix_copies_from(p, i + 1, inq);
            assert(seq![p[i]] + p.subrange(i + 1, p.len() as int) =~= p.subrange(i, p.len() as int));
        }
    } else {
        assert(p.subrange(i, p.len() as int) =~= Seq::<char>::empty());
    }
}

/// A fish body without any `$` is the same for bash and zsh: quotes, escapes and
/// everything else are copied as they are.
pub proof fn lemma_posix_keeps_slotless(p: Seq<char>)
    requires
        forall|k: int| 0 <= k < p.len() ==> (#[trigger] p[k]) != '$',
    ensures
        posix(p, 0, false) == p,
{
    lemma_posix_copies_from(p, 0, false);
    assert(p.subrange(0, p.len() as int) =~= p);
}

/// Rewrites a fish body as a POSIX shell body.
pub fn to_posix_body(fish_body: &str) -> (r: String)
    ensures
        r@ == posix(fish_body@, 0, false),
{
    let v = chars_of(fish_body);
    let n = v.len();
    let mut out = String::new();
    let mut inq = false;
    let mut i: usize = 0;
    assert(out@ + posix(v@, 0, false) =~= posix(v@, 0, false));
    while i < n
        invariant
            n == v.len(),
            v@ == fish_body@,
            i <= n,
            posix(v@, 0, false) == out@ + posix(v@, i as int, inq),
        decreases n - i,
    {
        let c = v[i];
        let ghost o0 = out@;
        if c == '\\' && i + 1 < n {
            push_char(&mut out, c);
            push_char(&mut out, v[i + 1]);
            assert(o0 + posix(v@, i as int, inq) =~= out@ + posix(v@, i + 2, inq));
            i += 2;
            continue;
        }
        if c == '"' {
            inq = !inq;
            push_char(&mut out, c);
            assert(o0 + posix(v@, i as int, !inq) =~= out@ + posix(v@, i + 1, inq));
            i += 1;
            continue;
        }
        if c == '$' && n - i >= 6 && v[i + 1] == 'a' && v[i + 2] == 'r' && v[i + 3] == 'g' && v[i + 4]
            == 'v' && v[i + 5] == '[' {
            let mut j = i + 6;
            proof {
                lemma_digits_end(v@, (i + 6) as int);
            }
            while j < n && '0' <= v[j] && v[j] <= '9'
                invariant
                    i + 6 <= j <= n,
                    n == v.len(),
                    digits_end(v@, (i + 6) as int) == digits_end(v@, j as int),
                decreases n - j,
            {
                j += 1;
            }
            if j < n && v[j] == ']' && j > i + 6 {
                let num = string_of(&v, i + 6, j);
                if inq {
                    push_char(&mut out, '$');
                    push_all(&mut out, num.as_str());
                    assert(o0 + posix(v@, i as int, inq) =~= out@ + posix(v@, j + 1, inq));
                } else {
                    push_char(&mut out, '"');
                    push_char(&mut out, '$');
                    push_all(&mut out, num.as_str());
                    push_char(&mut out, '"');
                    assert(o0 + posix(v@, i as int, inq) =~= out@ + posix(v@, j + 1, inq));
                }
                i = j + 1;
                continue;
            }
        }
        push_char(&mut out, c);
        assert(o0 + posix(v@, i as int, inq) =~= out@ + posix(v@, i + 1, inq));
        i += 1;
    }
    assert(posix(v@, n as int, inq) =~= Seq::<char>::empty());
    out
}

/// A function definition for a shell: fish keeps the body; bash and zsh get its
/// POSIX form.
pub open spec fn function_text(name: Seq<char>, fish_body: Seq<char>, shell: Shell) -> Seq<char> {
    match shell {
        Shell::Fish => "function "@ + name + "\n    "@ + fish_body + "\nend"@,
        _ => name + "() {\n    "@ + posix(fish_body, 0, false) + "\n}"@,
    }
}

/// Renders a mined function as a definition for the shell.
pub fn render_function(name: &str, fish_body: &str, shell: Shell) -> (r: String)
    ensures
        r@ == function_text(name@, fish_body@, shell),
{
    let mut out = String::new();
    match shell {
        Shell::Fish => {
            push_all(&mut out, "function ");
            push_all(&mut out, name);
            push_all(&mut out, "\n    ");
            push_all(&mut out, fish_body);
            push_all(&mut out, "\nend");
            assert(out@ =~= function_text(name@, fish_body@, shell));
        },
        Shell::Bash | Shell::Zsh => {
            push_all(&mut out, name);
            push_all(&mut out, "() {\n    ");
            let p = to_posix_body(fish_body);
            push_all(&mut out, p.as_str());
            push_all(&mut out, "\n}");
            assert(out@ =~= function_text(name@, fish_body@, shell));
        },
    }
    out
}

/// The line that opens the hook block in a startup file.
pub const MARKER_OPEN: &'static str = "# >>> histmine hook >>>";

/// The line that closes the hook block in a startup file.
pub const MARKER_CLOSE: &'static str = "# <<< histmine hook <<<";

/// The fish hook: runs before each command line and prints the suggestion when the
/// function it names is defined.
pub const FISH_HOOK: &'static str = "function __histmine_nudge --on-event fish_preexec\n    \
     set -l name (command histmine match --field name -- $argv 2>/dev/null)\n    \
     test -n \"$name\"; and functions -q -- $name; and command histmine match -- $argv 2>/dev/null\n\
     end";

/// The zsh hook, run through `preexec`.
pub const ZSH_HOOK: &'static str = "__histmine_nudge() {\n    emulate -L zsh\n    local name\n    \
     name=$(command histmine match --field name -- \"$1\" 2>/dev/null) || return\n    \
     [[ -n $name ]] && whence -w -- \"$name\" >/dev/null 2>&1 && command histmine match -- \"$1\" 2>/dev/null\n}\n\
     autoload -Uz add-zsh-hook 2>/dev/null && add-zsh-hook preexec __histmine_nudge";

/// The bash hook: bash has no full-line preexec (its DEBUG trap fires per
/// sub-command, breaking compound lines), so it reads the last history line at
/// each prompt, and the nudge appears just after the command.
pub const BASH_HOOK: &'static str = "__histmine_last=\"\"\n\
     __histmine_nudge() {\n    local cmd name\n    \
     cmd=$(HISTTIMEFORMAT= history 1)\n    \
     [[ $cmd =~ ^[[:space:]]*[0-9]+[[:space:]]+(.*)$ ]] && cmd=\"${BASH_REMATCH[1]}\" || return\n    \
     [[ $cmd == \"$__histmine_last\" ]] && return\n    \
     __histmine_last=$cmd\n    \
     case \"$cmd\" in *\"histmine match\"*|__histmine_*) return;; esac\n    \
     name=$(command histmine match --field name -- \"$cmd\" 2>/dev/null)\n    \
     [[ -n $name ]] && type -t -- \"$name\" >/dev/null 2>&1 && command histmine match -- \"$cmd\" 2>/dev/null\n}\n\
     case \"$PROMPT_COMMAND\" in *__histmine_nudge*) ;; *) PROMPT_COMMAND=\"__histmine_nudge${PROMPT_COMMAND:+; $PROMPT_COMMAND}\";; esac";

/// The comment that explains the hook block to whoever reads the startup file.
pub const HOOK_NOTE: &'static str = "\n# Suggests a mined function when you run a command it has generalized,\n# only if that function is currently defined. Remove this block to disable.\n";

/// The shell code of a shell's hook.
pub open spec fn hook_body(shell: Shell) -> Seq<char> {
    match shell {
        Shell::Fish => FISH_HOOK@,
        Shell::Zsh => ZSH_HOOK@,
        Shell::Bash => BASH_HOOK@,
    }
}

/// The hook block for a shell: opening marker, a note, the hook, closing marker.
pub open spec fn hook_text(shell: Shell) -> Seq<char> {
    MARKER_OPEN@ + HOOK_NOTE@ + hook_body(shell) + "\n"@ + MARKER_CLOSE@ + "\n"@
}

/// The hook block for a shell.
pub fn hook_snippet(shell: Shell) -> (r: String)
    ensures
        r@ == hook_text(shell),
{
    let body = match shell {
        Shell::Fish => FISH_HOOK,
        Shell::Zsh => ZSH_HOOK,
        Shell::Bash => BASH_HOOK,
    };
    let mut out = String::new();
    push_all(&mut out, MARKER_OPEN);
    push_all(&mut out, HOOK_NOTE);
    push_all(&mut out, body);
    push_all(&mut out, "\n");
    push_all(&mut out, MARKER_CLOSE);
    push_all(&mut out, "\n");
    assert(out@ =~= hook_text(shell));
    out
}

/// A startup file with the hook block added: `None` when it already holds the
/// opening marker; otherwise its text, a newline if it does not end with one, and
/// the block.
pub open spec fn with_hook(existing: Seq<char>, shell: Shell) -> Option<Seq<char>> {
    if contains(existing, MARKER_OPEN@) {
        None
    } else if existing.len() > 0 && existing.last() != '\n' {
        Some(existing.push('\n') + hook_text(shell))
    } else {
        Some(existing + hook_text(shell))
    }
}

/// The new text of a startup file once the hook is installed in it, or `None` when
/// it is installed already.
pub fn hook_update(existing: &str, shell: Shell) -> (r: Option<String>)
    ensures
        match r {
            Some(t) => with_hook(existing@, shell) == Some(t@),
            None => with_hook(existing@, shell) is None,
        },
{
    if contains_str(existing, MARKER_OPEN) {
        return None;
    }
    let ev = chars_of(existing);
    let mut content = string_of(&ev, 0, ev.len());
    assert(ev@.subrange(0, ev.len() as int) =~= ev@);
    if ev.len() > 0 && ev[ev.len() - 1] != '\n' {
        push_char(&mut content, '\n');
    }
    let snippet = hook_snippet(shell);
    push_all(&mut content, snippet.as_str());
    Some(content)
}

/// The manifest lines for the functions: `name<TAB>body` for each function whose
/// name has no tab and whose body has neither tab nor newline.
pub open spec fn manifest_lines(ms: Seq<MinedV>) -> Seq<char>
    decreases ms.len(),
{
    if ms.len() == 0 {
        Seq::empty()
    } else {
        let m = ms.last();
        let before = manifest_lines(ms.drop_last());
        if m.name.contains('\t') || m.body.contains('\t') || m.body.contains('\n') {
            before
        } else {
            before + m.name + seq!['\t'] + m.body + seq!['\n']
        }
    }
}

/// The text of the manifest that records the functions for matching.
pub fn manifest_text(mined: &[Mined]) -> (r: String)
    ensures
        r@ == manifest_lines(mined_view(mined@)),
{
    let ghost mv = mined_view(mined@);
    let mut out = String::new();
    let mut k: usize = 0;
    while k < mined.len()
        invariant
            k <= mined.len(),
            mv == mined_view(mined@),
            out@ == manifest_lines(mv.take(k as int)),
        decreases mined.len() - k,
    {
        let m = &mined[k];
        assert(mv.take(k + 1).drop_last() =~= mv.take(k as int));
        assert(mv.take(k + 1).last() == m@);
        let nv = chars_of(m.name.as_str());
        let bv = chars_of(m.body.as_str());
        if !(has_char(&nv, '\t') || has_char(&bv, '\t') || has_char(&bv, '\n')) {
            push_all(&mut out, m.name.as_str());
            push_char(&mut out, '\t');
            push_all(&mut out, m.body.as_str());
            push_char(&mut out, '\n');
            assert(out@ =~= manifest_lines(mv.take(k + 1)));
        }
        k += 1;
    }
    assert(mv.take(mined.len() as int) =~= mv);
    out
}

/// The end of the line that starts at `i`: the next newline, or the end.
pub open spec fn line_end(s: Seq<char>, i: int) -> int
    decreases s.len() - i,
{
    if 0 <= i < s.len() && s[i] != '\n' {
        line_end(s, i + 1)
    } else {
        i
    }
}

/// The line from `i` ends within `s`, holds no newline, and stops at a newline or at
/// the end.
pub proof fn lemma_line_end(s: Seq<char>, i: int)
    requires
        0 <= i <= s.len(),
    ensures
        i <= line_end(s, i) <= s.len(),
        forall|k: int| i <= k < line_end(s, i) ==> #[trigger] s[k] != '\n',
        line_end(s, i) < s.len() ==> s[line_end(s, i)] == '\n',
    decreases s.len() - i,
{
    if i < s.len() && s[i] != '\n' {
        lemma_line_end(s, i + 1);
    }
}

/// The line starting at `i`, as `str::lines` gives it: without its newline, and
/// without a carriage return just before that newline.
pub open spec fn line_at(s: Seq<char>, i: int) -> Seq<char> {
    let j = line_end(s, i);
    let l = s.subrange(i, j);
    if j < s.len() && l.len() > 0 && l.last() == '\r' {
        l.drop_last()
    } else {
        l
    }
}

/// The first tab in `l`, if any.
pub open spec fn first_tab(l: Seq<char>) -> Option<int>
    decreases l.len(),
{
    if l.len() == 0 {
        None
    } else {
        match first_tab(l.drop_last()) {
            Some(t) => Some(t),
            None => if l.last() == '\t' { Some(l.len() - 1) } else { None },
        }
    }
}

/// The `(name, body)` entries of manifest text from position `i` on: each line
/// split at its first tab; lines without a tab are skipped.
pub open spec fn entries_from(s: Seq<char>, i: int) -> Seq<(Seq<char>, Seq<char>)>
    decreases s.len() - i,
{
    if i < 0 || i >= s.len() {
        Seq::empty()
    } else {
        let j = line_end(s, i);
        proof {
            lemma_line_end(s, i);
        }
        let l = line_at(s, i);
        let rest = if j < s.len() { entries_from(s, j + 1) } else { Seq::empty() };
        match first_tab(l) {
            Some(t) => seq![(l.subrange(0, t), l.subrange(t + 1, l.len() as int))] + rest,
            None => rest,
        }
    }
}

proof fn lemma_first_tab(l: Seq<char>, t: int)
    requires
        0 <= t <= l.len(),
        forall|k: int| 0 <= k < t ==> l[k] != '\t',
        t < l.len() ==> l[t] == '\t',
    ensures
        first_tab(l) == if t < l.len() { Some(t) } else { None::<int> },
    decreases l.len(),
{
    if l.len() > 0 {
        if t < l.len() - 1 {
            lemma_first_tab(l.drop_last(), t);
        } else {
            lemma_first_tab(l.drop_last(), l.len() - 1);
        }
    }
}

/// Reads the `(name, body)` entries back from manifest text.
pub fn parse_manifest(data: &str) -> (r: Vec<(String, String)>)
    ensures
        crate::matching::entries_view(r@) == entries_from(data@, 0),
{
    let v = chars_of(data);
    let n = v.len();
    let mut out: Vec<(String, String)> = Vec::new();
    let mut i: usize = 0;
    assert(crate::matching::entries_view(out@) + entries_from(v@, 0) =~= entries_from(v@, 0));
    while i < n
        invariant
            n == v.len(),
            v@ == data@,
            i <= n,
            entries_from(v@, 0) == crate::matching::entries_view(out@) + entries_from(v@, i as int),
        decreases n - i,
    {
        let i0 = i;
        let mut j = i;
        while j < n && v[j] != '\n'
            invariant
                i <= j <= n,
                n == v.len(),
                line_end(v@, i as int) == line_end(v@, j as int),
            decreases n - j,
        {
            j += 1;
        }
        proof {
            lemma_line_end(v@, i as int);
        }
        let mut e = j;
        if j < n && j > i && v[j - 1] == '\r' {
            e = j - 1;
        }
        let ghost l = line_at(v@, i as int);
        assert(l =~= v@.subrange(i as int, e as int));
        let mut t = i;
        while t < e && v[t] != '\t'
            invariant
                i <= t <= e,
                e <= n,
                n == v.len(),
                forall|k: int| i <= k < t ==> v@[k] != '\t',
            decreases e - t,
        {
            t += 1;
        }
        proof {
            lemma_first_tab(l, t - i);
        }
        let ghost o0 = crate::matching::entries_view(out@);
        if t < e {
            let name = string_of(&v, i, t);
            let body = string_of(&v, t + 1, e);
            out.push((name, body));
            assert(l.subrange(0, t - i) =~= v@.subrange(i as int, t as int));
            assert(l.subrange(t - i + 1, l.len() as int) =~= v@.subrange(t + 1, e as int));
            assert(crate::matching::entries_view(out@) =~= o0.push((l.subrange(0, t - i), l.subrange(t - i + 1, l.len() as int))));
        }
        if j < n {
            i = j + 1;
        } else {
            i = n;
        }
        assert(o0 + entries_from(v@, i0 as int) =~= crate::matching::entries_view(out@) + entries_from(v@, i as int));
    }
    assert(entries_from(v@, i as int) =~= Seq::<(Seq<char>, Seq<char>)>::empty());
    assert(crate::matching::entries_view(out@) + Seq::<(Seq<char>, Seq<char>)>::empty() =~= crate::matching::entries_view(out@));
    out
}


/// The line a function takes in the manifest: `name<TAB>body<NL>`, or nothing when
/// the name holds a tab or the body a tab or a newline.
pub open spec fn manifest_line(m: MinedV) -> Seq<char> {
    if m.name.contains('\t') || m.body.contains('\t') || m.body.contains('\n') {
        Seq::empty()
    } else {
        m.name + seq!['\t'] + m.body + seq!['\n']
    }
}

/// The `(name, body)` pairs the manifest records, in order: those of the functions
/// whose line is not left out.
pub open spec fn recorded(ms: Seq<MinedV>) -> Seq<(Seq<char>, Seq<char>)>
    decreases ms.len(),
{
    if ms.len() == 0 {
        Seq::empty()
    } else if manifest_line(ms[0]).len() == 0 {
        recorded(ms.drop_first())
    } else {
        seq![(ms[0].name, ms[0].body)] + recorded(ms.drop_first())
    }
}

proof fn lemma_manifest_lines_front(ms: Seq<MinedV>)
    requires
        ms.len() > 0,
    ensures
        manifest_lines(ms) == manifest_line(ms[0]) + manifest_lines(ms.drop_first()),
    decreases ms.len(),
{
    if ms.len() == 1 {
        assert(ms.drop_last() =~= Seq::<MinedV>::empty());
        assert(ms.drop_first() =~= Seq::<MinedV>::empty());
        assert(manifest_lines(ms) =~= manifest_line(ms[0]) + manifest_lines(ms.drop_first()));
    } else {
        lemma_manifest_lines_front(ms.drop_last());
        assert(ms.drop_last().drop_first() =~= ms.drop_first().drop_last());
        assert(ms.drop_last()[0] == ms[0]);
        assert(ms.drop_first().last() == ms.last());
        let m = ms.last();
        let a = manifest_line(ms[0]);
        let b = manifest_lines(ms.drop_first().drop_last());
        if m.name.contains('\t') || m.body.contains('\t') || m.body.contains('\n') {
        } else {
            assert(a + b + m.name + seq!['\t'] + m.body + seq!['\n'] =~= a + (b + m.name + seq!['\t']
                + m.body + seq!['\n']));
        }
    }
}

proof fn lemma_line_end_shift(p: Seq<char>, b: Seq<char>, j: int)
    requires
        0 <= j <= b.len(),
    ensures
        line_end(p + b, p.len() + j) == p.len() + line_end(b, j),
    decreases b.len() - j,
{
    let s = p + b;
    assert(s.len() == p.len() + b.len());
    if j < b.len() {
        assert(s[p.len() + j] == b[j]);
        if b[j] != '\n' {
            lemma_line_end_shift(p, b, j + 1);
        }
    }
}

/// Reading entries only looks forward: what comes before position `i` is ignored.
proof fn lemma_entries_shift(p: Seq<char>, b: Seq<char>, j: int)
    requires
        0 <= j,
    ensures
        entries_from(p + b, p.len() + j) == entries_from(b, j),
    decreases b.len() - j,
{
    let s = p + b;
    if j < b.len() {
        lemma_line_end_shift(p, b, j);
        lemma_line_end(b, j);
        lemma_line_end(s, p.len() + j);
        let e = line_end(b, j);
        assert(s.subrange(p.len() + j, p.len() + e) =~= b.subrange(j, e));
        assert(line_at(s, p.len() + j) == line_at(b, j));
        if e < b.len() {
            lemma_entries_shift(p, b, e + 1);
        }
    }
}

proof fn lemma_line_end_at(s: Seq<char>, i: int, k: int)
    requires
        0 <= i <= k < s.len(),
        s[k] == '\n',
        forall|q: int| i <= q < k ==> s[q] != '\n',
    ensures
        line_end(s, i) == k,
    decreases k - i,
{
    if i < k {
        lemma_line_end_at(s, i + 1, k);
    }
}

/// One recorded line read back: its entry, then the entries of what follows.
proof fn lemma_entries_line(m: MinedV, rest: Seq<char>)
    requires
        manifest_line(m).len() > 0,
        !m.name.contains('\n'),
        !(m.body.len() > 0 && m.body.last() == '\r'),
    ensures
        entries_from(manifest_line(m) + rest, 0) == seq![(m.name, m.body)] + entries_from(rest, 0),
{
    let l = manifest_line(m);
    let s = l + rest;
    let k = l.len() - 1;
    let t = m.name.len() as int;
    assert(l[k] == '\n');
    assert forall|q: int| 0 <= q < k implies s[q] != '\n' by {
        if q < t {
            assert(s[q] == m.name[q]);
            assert(m.name.contains(m.name[q]));
        } else if q > t {
            assert(s[q] == m.body[q - t - 1]);
            assert(m.body.contains(m.body[q - t - 1]));
        }
    }
    lemma_line_end_at(s, 0, k);
    let line = s.subrange(0, k);
    assert(line =~= m.name + seq!['\t'] + m.body);
    if m.body.len() == 0 {
        assert(line.last() == '\t');
    } else {
        assert(line.last() == m.body.last());
    }
    assert(line_at(s, 0) == line);
    assert forall|q: int| 0 <= q < t implies line[q] != '\t' by {
        assert(line[q] == m.name[q]);
        assert(m.name.contains(m.name[q]));
    }
    lemma_first_tab(line, t);
    assert(line.subrange(0, t) =~= m.name);
    assert(line.subrange(t + 1, line.len() as int) =~= m.body);
    lemma_entries_shift(l, rest, 0);
}

/// The manifest reads back what it records: parsing the text written for a list of
/// functions gives the `(name, body)` of each function whose line is kept, in order,
/// provided no name holds a newline and no body ends with a carriage return.
pub proof fn lemma_manifest_round_trip(ms: Seq<MinedV>)
    requires
        forall|i: int| 0 <= i < ms.len() ==> !(#[trigger] ms[i]).name.contains('\n'),
        forall|i: int| 0 <= i < ms.len() ==> !((#[trigger] ms[i]).body.len() > 0 && ms[i].body.last() == '\r'),
    ensures
        entries_from(manifest_lines(ms), 0) == recorded(ms),
    decreases ms.len(),
{
    if ms.len() == 0 {
        assert(manifest_lines(ms) =~= Seq::<char>::empty());
    } else {
        lemma_manifest_lines_front(ms);
        let rest = ms.drop_first();
        assert forall|i: int| 0 <= i < rest.len() implies !(#[trigger] rest[i]).name.contains('\n') by {
            assert(rest[i] == ms[i + 1]);
        }
        assert forall|i: int| 0 <= i < rest.len() implies !((#[trigger] rest[i]).body.len() > 0
            && rest[i].body.last() == '\r') by {
            assert(rest[i] == ms[i + 1]);
        }
        lemma_manifest_round_trip(rest);
        let m = ms[0];
        if manifest_line(m).len() == 0 {
            assert(manifest_line(m) + manifest_lines(rest) =~= manifest_lines(rest));
        } else {
            lemma_entries_line(m, manifest_lines(rest));
        }
    }
}

/// Installing the hook is done once: a startup file the hook was added to holds the
/// opening marker, so adding a hook to it again, for any shell, changes nothing.
pub proof fn lemma_hook_installed_once(existing: Seq<char>, shell: Shell, again: Shell)
    requires
        with_hook(existing, shell) is Some,
    ensures
        with_hook(with_hook(existing, shell)->0, again) is None,
{
    let t = with_hook(existing, shell)->0;
    let pre = if existing.len() > 0 && existing.last() != '\n' { existing.push('\n') } else { existing };
    let m = MARKER_OPEN@;
    assert(t == pre + hook_text(shell));
    assert(t.subrange(pre.len() as int, (pre.len() + m.len()) as int) =~= m);
    assert(occurs_at(t, m, pre.len() as int));
}


/// `s` holds no `#`.
spec fn hash_free(s: Seq<char>) -> bool {
    forall|k: int| 0 <= k < s.len() ==> s[k] != '#'
}

/// Every `#` in `s` has a character two places on, and it is no `>`.
spec fn hash_safe(s: Seq<char>) -> bool {
    forall|k: int| 0 <= k < s.len() && #[trigger] s[k] == '#' ==> k + 2 < s.len() && s[k + 2] != '>'
}

proof fn lemma_hash_free_safe(s: Seq<char>)
    requires
        hash_free(s),
    ensures
        hash_safe(s),
{
}

proof fn lemma_hash_safe_concat(a: Seq<char>, b: Seq<char>)
    requires
        hash_safe(a),
        hash_safe(b),
    ensures
        hash_safe(a + b),
{
    let c = a + b;
    assert forall|k: int| 0 <= k < c.len() && #[trigger] c[k] == '#' implies k + 2 < c.len() && c[k + 2] != '>' by {
        if k < a.len() {
            assert(a[k] == '#');
        } else {
            assert(b[k - a.len()] == '#');
        }
    }
}

proof fn lemma_hook_pieces(shell: Shell)
    ensures
        MARKER_OPEN@.len() == 23,
        MARKER_OPEN@[0] == '#',
        MARKER_OPEN@[2] == '>',
        MARKER_OPEN@[22] == '>',
        forall|k: int| 0 < k < 23 ==> MARKER_OPEN@[k] != '#',
        hash_safe(HOOK_NOTE@ + hook_body(shell) + "\n"@ + MARKER_CLOSE@ + "\n"@),
{
    reveal_strlit("# >>> histmine hook >>>");
    reveal_strlit("# <<< histmine hook <<<");
    reveal_strlit("\n");
    reveal_strlit("\n# Suggests a mined function when you run a command it has generalized,\n# only if that function is currently defined. Remove this block to disable.\n");
    reveal_strlit("function __histmine_nudge --on-event fish_preexec\n    set -l name (command histmine match --field name -- $argv 2>/dev/null)\n    test -n \"$name\"; and functions -q -- $name; and command histmine match -- $argv 2>/dev/null\nend");
    reveal_strlit("__histmine_nudge() {\n    emulate -L zsh\n    local name\n    name=$(command histmine match --field name -- \"$1\" 2>/dev/null) || return\n    [[ -n $name ]] && whence -w -- \"$name\" >/dev/null 2>&1 && command histmine match -- \"$1\" 2>/dev/null\n}\nautoload -Uz add-zsh-hook 2>/dev/null && add-zsh-hook preexec __histmine_nudge");
    reveal_strlit("__histmine_last=\"\"\n__histmine_nudge() {\n    local cmd name\n    cmd=$(HISTTIMEFORMAT= history 1)\n    [[ $cmd =~ ^[[:space:]]*[0-9]+[[:space:]]+(.*)$ ]] && cmd=\"${BASH_REMATCH[1]}\" || return\n    [[ $cmd == \"$__histmine_last\" ]] && return\n    __histmine_last=$cmd\n    case \"$cmd\" in *\"histmine match\"*|__histmine_*) return;; esac\n    name=$(command histmine match --field name -- \"$cmd\" 2>/dev/null)\n    [[ -n $name ]] && type -t -- \"$name\" >/dev/null 2>&1 && command histmine match -- \"$cmd\" 2>/dev/null\n}\ncase \"$PROMPT_COMMAND\" in *__histmine_nudge*) ;; *) PROMPT_COMMAND=\"__histmine_nudge${PROMPT_COMMAND:+; $PROMPT_COMMAND}\";; esac");
    assert(hash_safe(HOOK_NOTE@));
    assert(hash_free(hook_body(shell)));
    assert(hash_free("\n"@));
    assert(hash_safe(MARKER_CLOSE@));
    lemma_hash_free_safe(hook_body(shell));
    lemma_hash_free_safe("\n"@);
    lemma_hash_safe_concat(HOOK_NOTE@, hook_body(shell));
    lemma_hash_safe_concat(HOOK_NOTE@ + hook_body(shell), "\n"@);
    lemma_hash_safe_concat(HOOK_NOTE@ + hook_body(shell) + "\n"@, MARKER_CLOSE@);
    lemma_hash_safe_concat(HOOK_NOTE@ + hook_body(shell) + "\n"@ + MARKER_CLOSE@, "\n"@);
}

/// `t` occurs in `s` at exactly one position.
pub open spec fn occurs_once(s: Seq<char>, t: Seq<char>) -> bool {
    exists|p: int| occurs_at(s, t, p) && forall|i: int| #[trigger] occurs_at(s, t, i) ==> i == p
}

/// Installing the hook in a startup file without it leaves the opening marker in the
/// file exactly once.
pub proof fn lemma_hook_marker_once(existing: Seq<char>, shell: Shell)
    requires
        !contains(existing, MARKER_OPEN@),
    ensures
        with_hook(existing, shell) is Some,
        occurs_once(with_hook(existing, shell)->0, MARKER_OPEN@),
{
    lemma_hook_pieces(shell);
    let m = MARKER_OPEN@;
    let rest = HOOK_NOTE@ + hook_body(shell) + "\n"@ + MARKER_CLOSE@ + "\n"@;
    let h = hook_text(shell);
    assert(h =~= m + rest);
    let pre = if existing.len() > 0 && existing.last() != '\n' { existing.push('\n') } else { existing };
    let t = with_hook(existing, shell)->0;
    assert(t == pre + h);
    let p = pre.len() as int;
    assert(t.subrange(p, p + 23) =~= m);
    assert(occurs_at(t, m, p));
    assert forall|i: int| #[trigger] occurs_at(t, m, i) implies i == p by {
        assert(t.subrange(i, i + 23) == m);
        assert(t[i] == m[0]);
        assert(t[i + 2] == m[2]);
        assert(t[i + 22] == m[22]);
        if i + 23 <= p {
            if i + 23 <= existing.len() {
                assert(existing.subrange(i, i + 23) =~= t.subrange(i, i + 23));
                assert(occurs_at(existing, m, i));
            } else {
                assert(t[i + 22] == '\n');
            }
        } else if i < p {
            let d = p - i;
            assert(t[p] == h[0]);
            assert(t[i + d] == m[d]);
        } else if i > p {
            let d = i - p;
            if d < 23 {
                assert(t[i] == h[d]);
                assert(h[d] == m[d]);
            } else {
                assert(t[i] == rest[d - 23]);
                assert(t[i + 2] == rest[d - 21]);
            }
        }
    }
}

} // verus!

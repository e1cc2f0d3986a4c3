//! Where the completion script for a shell goes, and what is still needed to
//! make the shell load it.

use crate::text::{chars_of, cut_after_last, same_str, string_of};
#[allow(unused_imports)]
use crate::text::{
    after_last, begins, first_of, lemma_first_of, lemma_past_last, lemma_past_last_at, past_last,
    text_of, texts,
};
use vstd::prelude::*;

verus! {

/// The shells for which there is a completion script.
#[derive(Clone, Debug)]
pub enum Shell {
    Bash,
    Zsh,
    Fish,
    Elvish,
    PowerShell,
    /// Another one that the script generator knows, by its name.
    Other(String),
}

/// The shell whose program has this name.
pub open spec fn shell_named(name: Seq<char>) -> Option<Shell> {
    if name == "bash"@ {
        Some(Shell::Bash)
    } else if name == "zsh"@ {
        Some(Shell::Zsh)
    } else if name == "fish"@ {
        Some(Shell::Fish)
    } else if name == "elvish"@ {
        Some(Shell::Elvish)
    } else if name == "pwsh"@ || name == "powershell"@ {
        Some(Shell::PowerShell)
    } else {
        None
    }
}

/// Guesses the shell from the value of `$SHELL`. Nothing where that is unset
/// or not recognised: the caller should then ask rather than guess wrong.
pub fn detect_shell(variable: Option<&str>) -> (r: Option<Shell>)
    ensures
        match variable {
            Some(path) => r == shell_named(after_last(path@, '/')),
            None => r is None,
        },
{
    match variable {
        None => None,
        Some(path) => {
            let chars = chars_of(path);
            let name = string_of(cut_after_last(chars.as_slice(), '/'));
            let n = name.as_str();
            if same_str(n, "bash") {
                Some(Shell::Bash)
            } else if same_str(n, "zsh") {
                Some(Shell::Zsh)
            } else if same_str(n, "fish") {
                Some(Shell::Fish)
            } else if same_str(n, "elvish") {
                Some(Shell::Elvish)
            } else if same_str(n, "pwsh") || same_str(n, "powershell") {
                Some(Shell::PowerShell)
            } else {
                None
            }
        },
    }
}

/// The directories that the environment names, each where it is set.
pub struct Dirs<'a> {
    pub home: Option<&'a str>,
    pub data_home: Option<&'a str>,
    pub config_home: Option<&'a str>,
}

/// Where a completion script goes, and what is still needed (if anything) to
/// make the shell load it.
pub struct Destination {
    /// The parts of the path, to be joined in this order.
    pub path: Vec<String>,
    /// `None` when the directory is scanned unconditionally; otherwise the one
    /// thing left to do.
    pub remaining_step: Option<String>,
}

/// The home directory, or the current one where none is named.
pub open spec fn home_of(dirs: Dirs) -> Seq<char> {
    match dirs.home {
        Some(h) => h@,
        None => "."@,
    }
}

/// The directory that a variable names, or its place below the home directory.
pub open spec fn base_dir(named: Option<&str>, dirs: Dirs, below_home: Seq<char>) -> Seq<
    Seq<char>,
> {
    match named {
        Some(d) => seq![d@],
        None => seq![home_of(dirs), below_home],
    }
}

/// The parts of the path for a shell's script for the command `bin`.
pub open spec fn script_path(shell: Shell, system: bool, bin: Seq<char>, dirs: Dirs) -> Seq<
    Seq<char>,
> {
    let config = base_dir(dirs.config_home, dirs, ".config"@);
    match shell {
        Shell::Bash => if system {
            seq!["/usr/share/bash-completion/completions/"@ + bin]
        } else {
            base_dir(dirs.data_home, dirs, ".local/share"@).push(
                "bash-completion/completions/"@ + bin,
            )
        },
        Shell::Zsh => if system {
            seq!["/usr/share/zsh/site-functions/_"@ + bin]
        } else {
            seq![home_of(dirs), ".zfunc/_"@ + bin]
        },
        Shell::Fish => (if system {
            seq!["/usr/share/fish/vendor_completions.d"@]
        } else {
            config.push("fish/completions"@)
        }).push(bin + ".fish"@),
        Shell::Elvish => (if system {
            seq!["/usr/share/elvish/lib"@]
        } else {
            config.push("elvish/lib"@)
        }).push(bin + "-completion.elv"@),
        Shell::PowerShell => (if system {
            seq!["/usr/local/share/powershell/Modules"@]
        } else {
            config.push("powershell"@)
        }).push(bin + "-completion.ps1"@),
        Shell::Other(name) => seq![bin + "-completion."@ + name@],
    }
}

/// What is left to do once a shell's script is in place.
pub open spec fn step_left(shell: Shell, system: bool, bin: Seq<char>) -> Option<Seq<char>> {
    match shell {
        Shell::Bash => Some(
            if system {
                "requires the bash-completion package (v2); with it installed, this directory is scanned automatically on the next shell start"@
            } else {
                "requires the bash-completion package (v2) to be installed and sourced; with it, this file is picked up on the next shell start"@
            },
        ),
        Shell::Zsh => Some(
            if system {
                "on the default zsh fpath on most systems; start a new shell (or run `compinit`) to pick it up"@
            } else {
                "add `fpath+=(~/.zfunc)` to ~/.zshrc BEFORE the `autoload -Uz compinit && compinit` line, then start a new shell"@
            },
        ),
        Shell::Fish => None,
        Shell::Elvish => Some(
            "add `use "@ + bin
                + "-completion` to rc.elv (run `edit:rc-path` in elvish to find it)"@,
        ),
        Shell::PowerShell => Some(
            "add `. <path>` to $PROFILE (run `echo $PROFILE` in pwsh to find it)"@,
        ),
        Shell::Other(_) => Some(
            "unrecognised shell variant; consult its own completion documentation"@,
        ),
    }
}

fn joined(before: &str, bin: &str, after: &str) -> (r: String)
    ensures
        r@ == before@ + bin@ + after@,
{
    let mut s = String::from_str(before);
    s.append(bin);
    s.append(after);
    s
}

fn home_dir(dirs: &Dirs) -> (r: String)
    ensures
        r@ == home_of(*dirs),
{
    match dirs.home {
        Some(h) => String::from_str(h),
        None => String::from_str("."),
    }
}

fn base(named: Option<&str>, dirs: &Dirs, below_home: &str) -> (r: Vec<String>)
    ensures
        texts(r@) == base_dir(named, *dirs, below_home@),
{
    let mut v: Vec<String> = Vec::new();
    match named {
        Some(d) => {
            v.push(String::from_str(d));
        },
        None => {
            v.push(home_dir(dirs));
            v.push(String::from_str(below_home));
        },
    }
    proof {
        assert(texts(v@) =~= base_dir(named, *dirs, below_home@));
    }
    v
}

/// Picks the destination of `shell`'s script for the command `bin`. `system`
/// selects the place for the whole machine over that of the current user.
pub fn destination(shell: &Shell, system: bool, bin: &str, dirs: &Dirs) -> (r: Destination)
    ensures
        texts(r.path@) == script_path(*shell, system, bin@, *dirs),
        text_of(r.remaining_step) == step_left(*shell, system, bin@),
{
    let mut path: Vec<String> = Vec::new();
    let remaining_step: Option<String>;
    match shell {
        Shell::Bash => {
            if system {
                path.push(joined("/usr/share/bash-completion/completions/", bin, ""));
                remaining_step = Some(
                    String::from_str(
                        "requires the bash-completion package (v2); with it installed, this directory is scanned automatically on the next shell start",
                    ),
                );
            } else {
                path = base(dirs.data_home, dirs, ".local/share");
                path.push(joined("bash-completion/completions/", bin, ""));
                remaining_step = Some(
                    String::from_str(
                        "requires the bash-completion package (v2) to be installed and sourced; with it, this file is picked up on the next shell start",
                    ),
                );
            }
        },
        Shell::Zsh => {
            if system {
                path.push(joined("/usr/share/zsh/site-functions/_", bin, ""));
                remaining_step = Some(
                    String::from_str(
                        "on the default zsh fpath on most systems; start a new shell (or run `compinit`) to pick it up",
                    ),
                );
            } else {
                path.push(home_dir(dirs));
                path.push(joined(".zfunc/_", bin, ""));
                remaining_step = Some(
                    String::from_str(
                        "add `fpath+=(~/.zfunc)` to ~/.zshrc BEFORE the `autoload -Uz compinit && compinit` line, then start a new shell",
                    ),
                );
            }
        },
        Shell::Fish => {
            if system {
                path.push(String::from_str("/usr/share/fish/vendor_completions.d"));
            } else {
                path = base(dirs.config_home, dirs, ".config");
                path.push(String::from_str("fish/completions"));
            }
            path.push(joined("", bin, ".fish"));
            remaining_step = None;
        },
        Shell::Elvish => {
            if system {
                path.push(String::from_str("/usr/share/elvish/lib"));
            } else {
                path = base(dirs.config_home, dirs, ".config");
                path.push(String::from_str("elvish/lib"));
            }
            path.push(joined("", bin, "-completion.elv"));
            remaining_step = Some(
                joined(
                    "add `use ",
                    bin,
                    "-completion` to rc.elv (run `edit:rc-path` in elvish to find it)",
                ),
            );
        },
        Shell::PowerShell => {
            if system {
                path.push(String::from_str("/usr/local/share/powershell/Modules"));
            } else {
                path = base(dirs.config_home, dirs, ".config");
                path.push(String::from_str("powershell"));
            }
            path.push(joined("", bin, "-completion.ps1"));
            remaining_step = Some(
                String::from_str(
                    "add `. <path>` to $PROFILE (run `echo $PROFILE` in pwsh to find it)",
                ),
            );
        },
        Shell::Other(name) => {
            let mut file = joined("", bin, "-completion.");
            file.append(name.as_str());
            path.push(file);
            remaining_step = Some(
                String::from_str(
                    "unrecognised shell variant; consult its own completion documentation",
                ),
            );
        },
    }
    proof {
        reveal_strlit("");
        assert(""@ =~= Seq::<char>::empty());
        assert(""@ + bin@ =~= bin@);
        assert forall|s: Seq<char>| #[trigger] (s + ""@) == s by {
            assert(s + ""@ =~= s);
        }
        assert(texts(path@) =~= script_path(*shell, system, bin@, *dirs));
    }
    Destination { path, remaining_step }
}

/// The names along a path: what stands between its slashes, without empty names
/// and `.`, which lead nowhere.
pub open spec fn names_in(path: Seq<char>) -> Seq<Seq<char>>
    decreases path.len(),
{
    let cut = past_last(path, '/');
    let name = path.skip(cut);
    let before = if 0 < cut <= path.len() {
        names_in(path.take(cut - 1))
    } else {
        Seq::empty()
    };
    if name.len() == 0 || name == "."@ {
        before
    } else {
        before.push(name)
    }
}

/// The names along the parts of a path.
pub open spec fn names_along(parts: Seq<Seq<char>>) -> Seq<Seq<char>>
    decreases parts.len(),
{
    if parts.len() == 0 {
        Seq::empty()
    } else {
        names_along(parts.drop_last()) + names_in(parts.last())
    }
}

/// Where the parts lead once they are joined: whether from the root, and along
/// which names.
pub open spec fn leads_to(parts: Seq<Seq<char>>) -> (bool, Seq<Seq<char>>) {
    (parts.len() > 0 && begins(parts[0], "/"@), names_along(parts))
}

/// Whether a variable names the directory that all users share.
pub open spec fn is_shared(named: Option<&str>) -> bool {
    named matches Some(d) && leads_to(seq![d@]) == (true, seq!["usr"@, "share"@])
}

proof fn lemma_one_name(s: Seq<char>)
    requires
        s.len() > 0,
        s != "."@,
        !s.contains('/'),
    ensures
        names_in(s) == seq![s],
{
    lemma_past_last(s, '/');
    if past_last(s, '/') > 0 {
        assert(s[past_last(s, '/') - 1] == '/');
    }
    assert(s.skip(0) =~= s);
    assert(names_in(s) =~= seq![s]);
}

proof fn lemma_names_split(a: Seq<char>, b: Seq<char>)
    ensures
        names_in(a + seq!['/'] + b) == names_in(a) + names_in(b),
    decreases b.len(),
{
    let s = a + seq!['/'] + b;
    let n = a.len() as int + 1;
    lemma_past_last(b, '/');
    let cut = past_last(b, '/');
    assert forall|j: int| n + cut <= j < s.len() implies s[j] != '/' by {
        assert(s[j] == b[j - n]);
    }
    if cut > 0 {
        assert(s[n + cut - 1] == b[cut - 1]);
    }
    lemma_past_last_at(s, '/', n + cut);
    assert(s.skip(n + cut) =~= b.skip(cut));
    if cut > 0 {
        lemma_names_split(a, b.take(cut - 1));
        assert(s.take(n + cut - 1) =~= a + seq!['/'] + b.take(cut - 1));
    } else {
        assert(s.take(n - 1) =~= a);
    }
    assert(names_in(s) =~= names_in(a) + names_in(b));
}

proof fn lemma_names_two(a: Seq<Seq<char>>, b: Seq<char>)
    ensures
        names_along(a.push(b)) == names_along(a) + names_in(b),
{
    assert(a.push(b).drop_last() =~= a);
}

proof fn lemma_names_single(a: Seq<char>)
    ensures
        names_along(seq![a]) == names_in(a),
{
    lemma_names_two(Seq::empty(), a);
    assert(Seq::<Seq<char>>::empty().push(a) =~= seq![a]);
    assert(names_along(Seq::empty()) + names_in(a) =~= names_in(a));
}

proof fn lemma_shared_names()
    ensures
        names_in("/usr/share"@) == seq!["usr"@, "share"@],
        "/usr/share"@[0] == '/',
{
    reveal_strlit("/usr/share");
    reveal_strlit("usr");
    reveal_strlit("share");
    reveal_strlit(".");
    let none = Seq::<char>::empty();
    assert(names_in(none) =~= Seq::<Seq<char>>::empty());
    lemma_one_name("usr"@);
    lemma_one_name("share"@);
    lemma_names_split("usr"@, "share"@);
    let both = "usr"@ + seq!['/'] + "share"@;
    lemma_names_split(none, both);
    assert(none + seq!['/'] + both =~= "/usr/share"@);
    assert(names_in("/usr/share"@) =~= seq!["usr"@, "share"@]);
}

proof fn lemma_two_names(whole: Seq<char>, a: Seq<char>, b: Seq<char>)
    requires
        whole == a + seq!['/'] + b,
        a.len() > 0,
        a != "."@,
        !a.contains('/'),
        b.len() > 0,
        b != "."@,
        !b.contains('/'),
    ensures
        names_in(whole) == seq![a, b],
{
    lemma_one_name(a);
    lemma_one_name(b);
    lemma_names_split(a, b);
    assert(names_in(whole) =~= seq![a, b]);
}

proof fn lemma_ends_apart(a: Seq<Seq<char>>, b: Seq<Seq<char>>, tail: Seq<Seq<char>>)
    requires
        a.len() > 0,
        b.len() > 0,
        a.last() != b.last(),
    ensures
        a + tail != b + tail,
{
    if a + tail == b + tail {
        assert((a + tail).len() == a.len() + tail.len());
        assert((b + tail).len() == b.len() + tail.len());
        assert((a + tail)[a.len() - 1] == a.last());
        assert((b + tail)[b.len() - 1] == b.last());
    }
}

proof fn lemma_same_front(a: Seq<Seq<char>>, b: Seq<Seq<char>>, tail: Seq<Seq<char>>)
    requires
        a + tail == b + tail,
    ensures
        a == b,
{
    assert((a + tail).len() == a.len() + tail.len());
    assert((b + tail).len() == b.len() + tail.len());
    assert((a + tail).take(a.len() as int) =~= a);
    assert((b + tail).take(b.len() as int) =~= b);
}

proof fn lemma_same_directory(front: Seq<Seq<char>>, x: Seq<char>, y: Seq<char>)
    requires
        names_in(x) != names_in(y),
    ensures
        names_along(front.push(x)) != names_along(front.push(y)),
{
    lemma_names_two(front, x);
    lemma_names_two(front, y);
    lemma_same_back(names_along(front), names_in(x), names_in(y));
}

proof fn lemma_same_back(front: Seq<Seq<char>>, a: Seq<Seq<char>>, b: Seq<Seq<char>>)
    requires
        a != b,
    ensures
        front + a != front + b,
{
    if front + a == front + b {
        assert((front + a).skip(front.len() as int) =~= a);
        assert((front + b).skip(front.len() as int) =~= b);
    }
}

proof fn lemma_below(dir: Seq<char>, x: Seq<char>, y: Seq<char>)
    requires
        names_in(x) != names_in(y),
    ensures
        names_in(dir + seq!['/'] + x) != names_in(dir + seq!['/'] + y),
{
    lemma_names_split(dir, x);
    lemma_names_split(dir, y);
    lemma_same_back(names_in(dir), names_in(x), names_in(y));
}

/// Whether a text is no name at all: empty, or the directory itself.
pub open spec fn is_nameless(s: Seq<char>) -> bool {
    s.len() == 0 || s == "."@
}

proof fn lemma_nameless(s: Seq<char>)
    requires
        is_nameless(s),
    ensures
        names_in(s) == Seq::<Seq<char>>::empty(),
{
    reveal_strlit(".");
    lemma_past_last_at(s, '/', 0);
    assert(s.skip(0) =~= s);
}

proof fn lemma_names_differ(a: Seq<char>, b: Seq<char>)
    requires
        a != b,
        !a.contains('/'),
        !b.contains('/'),
        !(is_nameless(a) && is_nameless(b)),
    ensures
        names_in(a) != names_in(b),
{
    if is_nameless(a) {
        lemma_nameless(a);
        lemma_one_name(b);
        assert(names_in(b).len() == 1);
    } else if is_nameless(b) {
        lemma_nameless(b);
        lemma_one_name(a);
        assert(names_in(a).len() == 1);
    } else {
        lemma_one_name(a);
        lemma_one_name(b);
        assert(seq![a][0] != seq![b][0]);
    }
}

proof fn lemma_files_differ(a: Seq<char>, b: Seq<char>, tail: Seq<char>)
    requires
        a != b,
        !a.contains('/'),
        !b.contains('/'),
        tail.len() > 1,
        tail[0] != '/',
        tail[1] != '/',
    ensures
        names_in(a + tail) != names_in(b + tail),
{
    reveal_strlit(".");
    lemma_first_of(tail, '/');
    let n = first_of(tail, '/');
    let (end, rest) = (tail.take(n), tail.skip(n + 1));
    assert(n > 1);
    if a + end == b + end {
        assert((a + end).len() == a.len() + n && (b + end).len() == b.len() + n);
        assert((a + end).take(a.len() as int) =~= a);
        assert((b + end).take(b.len() as int) =~= b);
    }
    assert forall|s: Seq<char>| !s.contains('/') implies !(#[trigger] (s + end)).contains('/') by {
        if (s + end).contains('/') {
            let i = choose|i: int| 0 <= i < (s + end).len() && (s + end)[i] == '/';
            if i < s.len() {
                assert(s[i] == '/');
            } else {
                assert(tail[i - s.len()] == '/');
            }
        }
    }
    lemma_names_differ(a + end, b + end);
    if n == tail.len() {
        assert(end =~= tail);
    } else {
        assert(a + tail =~= (a + end) + seq!['/'] + rest);
        assert(b + tail =~= (b + end) + seq!['/'] + rest);
        lemma_names_split(a + end, rest);
        lemma_names_split(b + end, rest);
        if names_in(a + end) + names_in(rest) == names_in(b + end) + names_in(rest) {
            lemma_same_front(names_in(a + end), names_in(b + end), names_in(rest));
        }
    }
}

proof fn lemma_bash_names(system: bool, a: Seq<char>, b: Seq<char>, dirs: Dirs)
    requires
        names_in(a) != names_in(b),
    ensures
        names_along(script_path(Shell::Bash, system, a, dirs)) != names_along(
            script_path(Shell::Bash, system, b, dirs),
        ),
{
    reveal_strlit("/usr/share/bash-completion/completions/");
    reveal_strlit("/usr/share/bash-completion/completions");
    reveal_strlit("bash-completion/completions/");
    reveal_strlit("bash-completion/completions");
    if system {
        let dir = "/usr/share/bash-completion/completions"@;
        let front = "/usr/share/bash-completion/completions/"@;
        lemma_below(dir, a, b);
        assert(front + a =~= dir + seq!['/'] + a);
        assert(front + b =~= dir + seq!['/'] + b);
        lemma_names_single(front + a);
        lemma_names_single(front + b);
    } else {
        let dir = "bash-completion/completions"@;
        let front = "bash-completion/completions/"@;
        lemma_below(dir, a, b);
        assert(front + a =~= dir + seq!['/'] + a);
        assert(front + b =~= dir + seq!['/'] + b);
        lemma_same_directory(
            base_dir(dirs.data_home, dirs, ".local/share"@),
            front + a,
            front + b,
        );
    }
}

proof fn lemma_zsh_names(system: bool, a: Seq<char>, b: Seq<char>, dirs: Dirs)
    requires
        names_in("_"@ + a) != names_in("_"@ + b),
    ensures
        names_along(script_path(Shell::Zsh, system, a, dirs)) != names_along(
            script_path(Shell::Zsh, system, b, dirs),
        ),
{
    reveal_strlit("/usr/share/zsh/site-functions/_");
    reveal_strlit("/usr/share/zsh/site-functions");
    reveal_strlit(".zfunc/_");
    reveal_strlit(".zfunc");
    reveal_strlit("_");
    if system {
        let dir = "/usr/share/zsh/site-functions"@;
        let front = "/usr/share/zsh/site-functions/_"@;
        lemma_below(dir, "_"@ + a, "_"@ + b);
        assert(front + a =~= dir + seq!['/'] + ("_"@ + a));
        assert(front + b =~= dir + seq!['/'] + ("_"@ + b));
        lemma_names_single(front + a);
        lemma_names_single(front + b);
    } else {
        let (dir, front, home) = (".zfunc"@, ".zfunc/_"@, home_of(dirs));
        lemma_below(dir, "_"@ + a, "_"@ + b);
        assert(front + a =~= dir + seq!['/'] + ("_"@ + a));
        assert(front + b =~= dir + seq!['/'] + ("_"@ + b));
        lemma_same_directory(seq![home], front + a, front + b);
        assert(seq![home].push(front + a) =~= script_path(Shell::Zsh, system, a, dirs));
        assert(seq![home].push(front + b) =~= script_path(Shell::Zsh, system, b, dirs));
    }
}

/// A script names the command that it completes, so two commands never share
/// a destination. For bash at least one of them must be a name at all: an empty
/// one and `.` both lead to the directory itself.
pub proof fn law_each_command_has_its_own_destination(
    shell: Shell,
    system: bool,
    a: Seq<char>,
    b: Seq<char>,
    dirs: Dirs,
)
    requires
        a != b,
        !a.contains('/'),
        !b.contains('/'),
        shell is Bash ==> !(is_nameless(a) && is_nameless(b)),
    ensures
        leads_to(script_path(shell, system, a, dirs)) != leads_to(
            script_path(shell, system, b, dirs),
        ),
{
    let config = base_dir(dirs.config_home, dirs, ".config"@);
    match shell {
        Shell::Bash => {
            lemma_names_differ(a, b);
            lemma_bash_names(system, a, b, dirs);
        },
        Shell::Zsh => {
            reveal_strlit("_");
            reveal_strlit(".");
            let (x, y) = ("_"@ + a, "_"@ + b);
            assert(x.skip(1) =~= a && y.skip(1) =~= b);
            assert(x[0] == '_' && y[0] == '_');
            if x.contains('/') {
                let i = choose|i: int| 0 <= i < x.len() && x[i] == '/';
                assert(a[i - 1] == '/');
            }
            if y.contains('/') {
                let i = choose|i: int| 0 <= i < y.len() && y[i] == '/';
                assert(b[i - 1] == '/');
            }
            lemma_names_differ(x, y);
            lemma_zsh_names(system, a, b, dirs);
        },
        Shell::Fish => {
            reveal_strlit(".fish");
            lemma_files_differ(a, b, ".fish"@);
            lemma_same_directory(
                if system {
                    seq!["/usr/share/fish/vendor_completions.d"@]
                } else {
                    config.push("fish/completions"@)
                },
                a + ".fish"@,
                b + ".fish"@,
            );
        },
        Shell::Elvish => {
            reveal_strlit("-completion.elv");
            lemma_files_differ(a, b, "-completion.elv"@);
            lemma_same_directory(
                if system {
                    seq!["/usr/share/elvish/lib"@]
                } else {
                    config.push("elvish/lib"@)
                },
                a + "-completion.elv"@,
                b + "-completion.elv"@,
            );
        },
        Shell::PowerShell => {
            reveal_strlit("-completion.ps1");
            lemma_files_differ(a, b, "-completion.ps1"@);
            lemma_same_directory(
                if system {
                    seq!["/usr/local/share/powershell/Modules"@]
                } else {
                    config.push("powershell"@)
                },
                a + "-completion.ps1"@,
                b + "-completion.ps1"@,
            );
        },
        Shell::Other(name) => {
            reveal_strlit("-completion.");
            let tail = "-completion."@ + name@;
            assert(tail[0] == '-' && tail[1] == 'c');
            lemma_files_differ(a, b, tail);
            assert(a + "-completion."@ + name@ =~= a + tail);
            assert(b + "-completion."@ + name@ =~= b + tail);
            lemma_names_single(a + tail);
            lemma_names_single(b + tail);
        },
    }
}

proof fn lemma_bash_apart(bin: Seq<char>, dirs: Dirs)
    requires
        !is_shared(dirs.data_home),
    ensures
        leads_to(script_path(Shell::Bash, true, bin, dirs)) != leads_to(
            script_path(Shell::Bash, false, bin, dirs),
        ),
{
    let file = "bash-completion/completions/"@ + bin;
    let system = "/usr/share/bash-completion/completions/"@ + bin;
    let tail = names_in(file);
    assert(system =~= "/usr/share"@ + seq!['/'] + file) by {
        reveal_strlit("/usr/share");
        reveal_strlit("bash-completion/completions/");
        reveal_strlit("/usr/share/bash-completion/completions/");
    }
    lemma_shared_names();
    lemma_names_split("/usr/share"@, file);
    lemma_names_single(system);
    let shared = seq!["usr"@, "share"@];
    assert(names_along(script_path(Shell::Bash, true, bin, dirs)) == shared + tail);
    match dirs.data_home {
        Some(d) => {
            lemma_names_two(seq![d@], file);
            lemma_names_single(d@);
            if names_in(d@) + tail == shared + tail {
                lemma_same_front(names_in(d@), shared, tail);
                assert(!begins(d@, "/"@));
                assert(begins(system, "/"@)) by {
                    reveal_strlit("/");
                    assert(system[0] == "/usr/share"@[0]);
                    assert(system.subrange(0, 1) =~= "/"@);
                }
            }
        },
        None => {
            let home = home_of(dirs);
            lemma_names_two(seq![home, ".local/share"@], file);
            lemma_names_two(seq![home], ".local/share"@);
            assert(seq![home].push(".local/share"@) =~= seq![home, ".local/share"@]);
            lemma_names_single(home);
            assert(".local/share"@ =~= ".local"@ + seq!['/'] + "share"@) by {
                reveal_strlit(".local/share");
                reveal_strlit(".local");
                reveal_strlit("share");
            }
            reveal_strlit(".local");
            reveal_strlit("share");
            reveal_strlit("usr");
            reveal_strlit(".");
            lemma_two_names(".local/share"@, ".local"@, "share"@);
            let user = names_in(home) + seq![".local"@, "share"@];
            if user + tail == shared + tail {
                lemma_same_front(user, shared, tail);
                assert(user.len() == 2);
                assert(user[0] == ".local"@);
                assert(".local"@.len() != "usr"@.len());
            }
        },
    }
}

proof fn lemma_zsh_apart(bin: Seq<char>, dirs: Dirs)
    ensures
        leads_to(script_path(Shell::Zsh, true, bin, dirs)) != leads_to(
            script_path(Shell::Zsh, false, bin, dirs),
        ),
{
    let file = "_"@ + bin;
    let tail = names_in(file);
    let system = "/usr/share/zsh/site-functions/_"@ + bin;
    let user = ".zfunc/_"@ + bin;
    let home = home_of(dirs);
    reveal_strlit("/usr/share/zsh/site-functions/_");
    reveal_strlit("/usr/share/zsh");
    reveal_strlit("site-functions");
    reveal_strlit(".zfunc/_");
    reveal_strlit(".zfunc");
    reveal_strlit("_");
    reveal_strlit(".");
    let front = "/usr/share/zsh"@ + seq!['/'] + "site-functions"@;
    assert(system =~= front + seq!['/'] + file);
    assert(user =~= ".zfunc"@ + seq!['/'] + file);
    lemma_names_split(front, file);
    lemma_names_split("/usr/share/zsh"@, "site-functions"@);
    lemma_one_name("site-functions"@);
    lemma_names_split(".zfunc"@, file);
    lemma_one_name(".zfunc"@);
    lemma_names_single(system);
    lemma_names_two(seq![home], user);
    lemma_names_single(home);
    let a = names_in("/usr/share/zsh"@) + seq!["site-functions"@];
    let b = names_in(home) + seq![".zfunc"@];
    assert(seq![home].push(user) =~= script_path(Shell::Zsh, false, bin, dirs));
    assert(names_in(home) + (seq![".zfunc"@] + tail) =~= b + tail);
    assert(a.last() == "site-functions"@ && b.last() == ".zfunc"@);
    assert("site-functions"@.len() != ".zfunc"@.len());
    lemma_ends_apart(a, b, tail);
}

proof fn lemma_below_config(
    dirs: Dirs,
    below: Seq<char>,
    file: Seq<char>,
)
    ensures
        names_along(base_dir(dirs.config_home, dirs, ".config"@).push(below).push(file))
            == names_along(base_dir(dirs.config_home, dirs, ".config"@)) + names_in(below)
            + names_in(file),
{
    let config = base_dir(dirs.config_home, dirs, ".config"@);
    lemma_names_two(config.push(below), file);
    lemma_names_two(config, below);
}

proof fn lemma_fish_apart(bin: Seq<char>, dirs: Dirs)
    ensures
        leads_to(script_path(Shell::Fish, true, bin, dirs)) != leads_to(
            script_path(Shell::Fish, false, bin, dirs),
        ),
{
    let file = bin + ".fish"@;
    let tail = names_in(file);
    let config = names_along(base_dir(dirs.config_home, dirs, ".config"@));
    reveal_strlit("/usr/share/fish/vendor_completions.d");
    reveal_strlit("/usr/share/fish");
    reveal_strlit("vendor_completions.d");
    reveal_strlit("fish/completions");
    reveal_strlit("fish");
    reveal_strlit("completions");
    reveal_strlit(".");
    let system = "/usr/share/fish/vendor_completions.d"@;
    assert(system =~= "/usr/share/fish"@ + seq!['/'] + "vendor_completions.d"@);
    lemma_names_split("/usr/share/fish"@, "vendor_completions.d"@);
    lemma_one_name("vendor_completions.d"@);
    assert("fish/completions"@ =~= "fish"@ + seq!['/'] + "completions"@);
    lemma_two_names("fish/completions"@, "fish"@, "completions"@);
    lemma_names_two(seq![system], file);
    lemma_names_single(system);
    lemma_below_config(dirs, "fish/completions"@, file);
    let a = names_in("/usr/share/fish"@) + seq!["vendor_completions.d"@];
    let b = config + seq!["fish"@, "completions"@];
    assert(a.last() == "vendor_completions.d"@ && b.last() == "completions"@);
    assert("vendor_completions.d"@.len() != "completions"@.len());
    lemma_ends_apart(a, b, tail);
}

/// The script of the whole machine and that of the current user go to different
/// places. Bash is excepted where a variable makes the shared directory the
/// user's own, and fish for a command that is a path from the root, which would
/// be its own destination in either case.
pub proof fn law_system_and_user_destinations_differ(shell: Shell, bin: Seq<char>, dirs: Dirs)
    requires
        shell is Bash || shell is Zsh || shell is Fish,
        shell is Bash ==> !is_shared(dirs.data_home),
        shell is Fish ==> !begins(bin, "/"@),
    ensures
        leads_to(script_path(shell, true, bin, dirs)) != leads_to(
            script_path(shell, false, bin, dirs),
        ),
{
    match shell {
        Shell::Bash => lemma_bash_apart(bin, dirs),
        Shell::Zsh => lemma_zsh_apart(bin, dirs),
        _ => lemma_fish_apart(bin, dirs),
    }
}

/// The report of a directory that could not be made.
pub fn create_failure(path: &str, error: &str) -> (r: String)
    ensures
        r@ == "could not create "@ + path@ + ": "@ + error@,
{
    let mut s = joined("could not create ", path, ": ");
    s.append(error);
    s
}

/// The report of a script that could not be written.
pub fn write_failure(path: &str, error: &str) -> (r: String)
    ensures
        r@ == "could not write "@ + path@ + ": "@ + error@,
{
    let mut s = joined("could not write ", path, ": ");
    s.append(error);
    s
}

/// A shell is known by the name of its program, and an unknown program is no
/// shell.
pub proof fn law_shells_are_known_by_their_programs(name: Seq<char>)
    ensures
        shell_named("bash"@) == Some(Shell::Bash),
        shell_named("zsh"@) == Some(Shell::Zsh),
        shell_named("fish"@) == Some(Shell::Fish),
        shell_named("elvish"@) == Some(Shell::Elvish),
        shell_named("pwsh"@) == Some(Shell::PowerShell),
        shell_named("powershell"@) == Some(Shell::PowerShell),
        shell_named(name) is Some ==> name == "bash"@ || name == "zsh"@ || name == "fish"@ || name
            == "elvish"@ || name == "pwsh"@ || name == "powershell"@,
{
    reveal_strlit("bash");
    reveal_strlit("zsh");
    reveal_strlit("fish");
    reveal_strlit("elvish");
    reveal_strlit("pwsh");
    reveal_strlit("powershell");
    assert("bash"@[0] == 'b' && "zsh"@[0] == 'z' && "fish"@[0] == 'f' && "elvish"@[0] == 'e'
        && "pwsh"@[0] == 'p' && "powershell"@[0] == 'p');
}

/// The script of the current user goes below the directory that a variable
/// names, or below its place in the home directory, or the current one where
/// there is no home.
pub proof fn law_user_scripts_go_below_the_users_directories(
    bin: Seq<char>,
    dirs: Dirs,
    dir: &str,
)
    ensures
        dirs.home matches Some(h) ==> home_of(dirs) == h@,
        dirs.home is None ==> home_of(dirs) == "."@,
        base_dir(Some(dir), dirs, ".config"@) == seq![dir@],
        base_dir(None, dirs, ".config"@) == seq![home_of(dirs), ".config"@],
        script_path(Shell::Bash, false, bin, dirs) == base_dir(
            dirs.data_home,
            dirs,
            ".local/share"@,
        ).push("bash-completion/completions/"@ + bin),
        script_path(Shell::Zsh, false, bin, dirs) == seq![home_of(dirs), ".zfunc/_"@ + bin],
        script_path(Shell::Fish, false, bin, dirs) == base_dir(
            dirs.config_home,
            dirs,
            ".config"@,
        ).push("fish/completions"@).push(bin + ".fish"@),
        script_path(Shell::Elvish, false, bin, dirs) == base_dir(
            dirs.config_home,
            dirs,
            ".config"@,
        ).push("elvish/lib"@).push(bin + "-completion.elv"@),
        script_path(Shell::PowerShell, false, bin, dirs) == base_dir(
            dirs.config_home,
            dirs,
            ".config"@,
        ).push("powershell"@).push(bin + "-completion.ps1"@),
{
}

/// The script of the whole machine goes to the directory that the shell scans
/// for all users.
pub proof fn law_system_scripts_go_where_all_users_look(bin: Seq<char>, dirs: Dirs)
    ensures
        script_path(Shell::Bash, true, bin, dirs) == seq![
            "/usr/share/bash-completion/completions/"@ + bin,
        ],
        script_path(Shell::Zsh, true, bin, dirs) == seq!["/usr/share/zsh/site-functions/_"@ + bin],
        script_path(Shell::Fish, true, bin, dirs) == seq![
            "/usr/share/fish/vendor_completions.d"@,
            bin + ".fish"@,
        ],
        script_path(Shell::Elvish, true, bin, dirs) == seq![
            "/usr/share/elvish/lib"@,
            bin + "-completion.elv"@,
        ],
        script_path(Shell::PowerShell, true, bin, dirs) == seq![
            "/usr/local/share/powershell/Modules"@,
            bin + "-completion.ps1"@,
        ],
{
    assert(script_path(Shell::Fish, true, bin, dirs) =~= seq![
        "/usr/share/fish/vendor_completions.d"@,
        bin + ".fish"@,
    ]);
    assert(script_path(Shell::Elvish, true, bin, dirs) =~= seq![
        "/usr/share/elvish/lib"@,
        bin + "-completion.elv"@,
    ]);
    assert(script_path(Shell::PowerShell, true, bin, dirs) =~= seq![
        "/usr/local/share/powershell/Modules"@,
        bin + "-completion.ps1"@,
    ]);
}

/// Fish scans its directory unconditionally, so nothing is left to do; every
/// other shell leaves a step, and elvish's names the command.
pub proof fn law_only_fish_leaves_nothing_to_do(shell: Shell, system: bool, bin: Seq<char>)
    ensures
        step_left(shell, system, bin) is None <==> shell is Fish,
        step_left(Shell::Elvish, system, bin) == Some(
            "add `use "@ + bin
                + "-completion` to rc.elv (run `edit:rc-path` in elvish to find it)"@,
        ),
        step_left(Shell::Zsh, false, bin) == Some(
            "add `fpath+=(~/.zfunc)` to ~/.zshrc BEFORE the `autoload -Uz compinit && compinit` line, then start a new shell"@,
        ),
        step_left(Shell::Zsh, true, bin) == Some(
            "on the default zsh fpath on most systems; start a new shell (or run `compinit`) to pick it up"@,
        ),
        step_left(Shell::Bash, true, bin) == Some(
            "requires the bash-completion package (v2); with it installed, this directory is scanned automatically on the next shell start"@,
        ),
        step_left(Shell::Bash, false, bin) == Some(
            "requires the bash-completion package (v2) to be installed and sourced; with it, this file is picked up on the next shell start"@,
        ),
        step_left(Shell::PowerShell, system, bin) == Some(
            "add `. <path>` to $PROFILE (run `echo $PROFILE` in pwsh to find it)"@,
        ),
{
}

} // verus!

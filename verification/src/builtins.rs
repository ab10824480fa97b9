//! The builtin registry and the directory stack.
//!
//! Builtins run in-process and never spawn a child. The directory stack is
//! the ordered list of previously visited working directories, most recent
//! first, kept beside a mirror of the current working directory. Changing
//! the real working directory is an operating-system call made by the
//! surrounding binary; the functions here decide what to change and how
//! the stack moves, and the binary reports back whether the change
//! succeeded.

use vstd::prelude::*;
use crate::strutil::{push_char, str_eq};

verus! {

/// The closed set of builtin commands.
#[derive(Clone, Copy, Debug, PartialEq, Eq, Structural)]
pub enum Builtin {
    Cd,
    Exit,
    Help,
    Clear,
    Pushd,
    Popd,
    Dirs,
}

/// Which builtin, if any, a command name denotes.
pub open spec fn spec_parse_builtin(s: Seq<char>) -> Option<Builtin> {
    if s == "cd"@ {
        Some(Builtin::Cd)
    } else if s == "exit"@ {
        Some(Builtin::Exit)
    } else if s == "help"@ {
        Some(Builtin::Help)
    } else if s == "clear"@ {
        Some(Builtin::Clear)
    } else if s == "pushd"@ {
        Some(Builtin::Pushd)
    } else if s == "popd"@ {
        Some(Builtin::Popd)
    } else if s == "dirs"@ {
        Some(Builtin::Dirs)
    } else {
        None
    }
}

/// Whether a command name is a builtin.
pub open spec fn spec_is_builtin(s: Seq<char>) -> bool {
    spec_parse_builtin(s) is Some
}

/// Resolves a command name to its builtin, or `None` for an external
/// command.
pub fn parse_builtin(command: &str) -> (r: Option<Builtin>)
    ensures
        r == spec_parse_builtin(command@),
{
    if str_eq(command, "cd") {
        Some(Builtin::Cd)
    } else if str_eq(command, "exit") {
        Some(Builtin::Exit)
    } else if str_eq(command, "help") {
        Some(Builtin::Help)
    } else if str_eq(command, "clear") {
        Some(Builtin::Clear)
    } else if str_eq(command, "pushd") {
        Some(Builtin::Pushd)
    } else if str_eq(command, "popd") {
        Some(Builtin::Popd)
    } else if str_eq(command, "dirs") {
        Some(Builtin::Dirs)
    } else {
        None
    }
}

/// Whether a command name is handled in-process.
pub fn is_builtin(command: &str) -> (r: bool)
    ensures
        r == spec_is_builtin(command@),
{
    parse_builtin(command).is_some()
}

/// The builtin names, alphabetically ordered, as the help listing shows
/// them.
pub fn help_names() -> (r: Vec<String>)
    ensures
        r.deep_view() == seq!["cd"@, "clear"@, "dirs"@, "exit"@, "help"@, "popd"@, "pushd"@],
{
    let mut r: Vec<String> = Vec::new();
    r.push("cd".to_owned());
    r.push("clear".to_owned());
    r.push("dirs".to_owned());
    r.push("exit".to_owned());
    r.push("help".to_owned());
    r.push("popd".to_owned());
    r.push("pushd".to_owned());
    proof {
        assert(r.deep_view() =~= seq!["cd"@, "clear"@, "dirs"@, "exit"@, "help"@, "popd"@, "pushd"@]);
    }
    r
}

/// The help listing names exactly the registered builtins: a name is a
/// builtin if and only if it is one of the seven listed names.
pub proof fn lemma_help_covers_builtins()
    ensures
        forall|s: Seq<char>| spec_is_builtin(s) <==> seq![
            "cd"@,
            "clear"@,
            "dirs"@,
            "exit"@,
            "help"@,
            "popd"@,
            "pushd"@,
        ].contains(s),
{
    let names = seq!["cd"@, "clear"@, "dirs"@, "exit"@, "help"@, "popd"@, "pushd"@];
    assert forall|s: Seq<char>| spec_is_builtin(s) implies names.contains(s) by {
        if s == "cd"@ {
            assert(names[0] == s);
        } else if s == "clear"@ {
            assert(names[1] == s);
        } else if s == "dirs"@ {
            assert(names[2] == s);
        } else if s == "exit"@ {
            assert(names[3] == s);
        } else if s == "help"@ {
            assert(names[4] == s);
        } else if s == "popd"@ {
            assert(names[5] == s);
        } else {
            assert(names[6] == s);
        }
    }
    assert forall|s: Seq<char>| names.contains(s) implies spec_is_builtin(s) by {
        let i = choose|i: int| 0 <= i < names.len() && names[i] == s;
        assert(spec_is_builtin(names[0]));
        assert(spec_is_builtin(names[1]));
        assert(spec_is_builtin(names[2]));
        assert(spec_is_builtin(names[3]));
        assert(spec_is_builtin(names[4]));
        assert(spec_is_builtin(names[5]));
        assert(spec_is_builtin(names[6]));
    }
}

/// The directory to change into for `cd args`: the first argument when
/// one is given, else the home directory when that is known, else
/// nothing. Extra arguments are accepted and ignored.
pub fn cd_target(args: &Vec<String>, home: Option<String>) -> (r: Option<String>)
    ensures
        r.deep_view() == (if args.deep_view().len() > 0 {
            Some(args.deep_view()[0])
        } else {
            home.deep_view()
        }),
{
    if args.len() > 0 {
        proof {
            assert(args.deep_view()[0] == args@[0]@);
        }
        Some(args[0].clone())
    } else {
        home
    }
}

/// The directory `pushd` should enter: its first argument, or nothing
/// when the argument is missing (an error the caller reports). Extra
/// arguments are accepted and ignored.
pub fn pushd_target(args: &Vec<String>) -> (r: Option<String>)
    ensures
        r.deep_view() == (if args.deep_view().len() > 0 {
            Some(args.deep_view()[0])
        } else {
            None
        }),
{
    if args.len() > 0 {
        proof {
            assert(args.deep_view()[0] == args@[0]@);
        }
        Some(args[0].clone())
    } else {
        None
    }
}

/// The mathematical state of the shell's directories: the working
/// directory and the stack of saved directories, most recent first.
pub struct DirModel {
    pub cwd: Seq<char>,
    pub stack: Seq<Seq<char>>,
}

/// A successful `pushd` into `new_cwd` saves the previous working
/// directory on top of the stack.
pub open spec fn spec_pushd(m: DirModel, new_cwd: Seq<char>) -> DirModel {
    DirModel { cwd: new_cwd, stack: seq![m.cwd] + m.stack }
}

/// A successful `popd` enters the top entry and removes it.
pub open spec fn spec_popd(m: DirModel) -> DirModel
    recommends
        m.stack.len() > 0,
{
    DirModel { cwd: m.stack[0], stack: m.stack.drop_first() }
}

/// `pushd` then `popd` is a no-op: the stack is as before and the prior
/// working directory is restored.
pub proof fn lemma_pushd_popd_roundtrip(m: DirModel, new_cwd: Seq<char>)
    ensures
        spec_popd(spec_pushd(m, new_cwd)) == m,
{
    assert((seq![m.cwd] + m.stack).drop_first() =~= m.stack);
    assert((seq![m.cwd] + m.stack)[0] == m.cwd);
}

/// What `popd` reports: an error on an empty stack, the directory entered
/// on success, or the directory that could not be entered (in which case
/// the stack is untouched).
#[derive(Debug)]
pub enum PopdReport {
    EmptyStack,
    ChangedTo(String),
    ChangeFailed(String),
}

/// The working directory and the directory stack.
pub struct DirState {
    pub cwd: String,
    pub stack: Vec<String>,
}

impl View for DirState {
    type V = DirModel;

    open spec fn view(&self) -> DirModel {
        DirModel { cwd: self.cwd@, stack: self.stack.deep_view() }
    }
}

impl DirState {
    /// A fresh state: the given working directory and an empty stack.
    pub fn new(initial_cwd: String) -> (r: DirState)
        ensures
            r@.cwd == initial_cwd@,
            r@.stack.len() == 0,
    {
        let r = DirState { cwd: initial_cwd, stack: Vec::new() };
        proof {
            assert(r@.stack =~= Seq::<Seq<char>>::empty());
        }
        r
    }

    /// Records a successful plain `cd`: only the working directory moves.
    pub fn set_cwd(&mut self, new_cwd: String)
        ensures
            final(self)@.cwd == new_cwd@,
            final(self)@.stack == old(self)@.stack,
    {
        self.cwd = new_cwd;
    }

    /// Records a successful `pushd` into `new_cwd`: the previous working
    /// directory goes on top of the stack.
    pub fn pushd_commit(&mut self, new_cwd: String)
        ensures
            final(self)@ == spec_pushd(old(self)@, new_cwd@),
    {
        let prev = self.cwd.clone();
        self.stack.insert(0, prev);
        self.cwd = new_cwd;
        proof {
            assert(self@.stack =~= seq![old(self)@.cwd] + old(self)@.stack);
        }
    }

    /// The entry `popd` would enter, if any.
    pub fn popd_target(&self) -> (r: Option<String>)
        ensures
            r.deep_view() == (if self@.stack.len() > 0 {
                Some(self@.stack[0])
            } else {
                None
            }),
    {
        if self.stack.len() > 0 {
            proof {
                assert(self@.stack[0] == self.stack@[0]@);
            }
            Some(self.stack[0].clone())
        } else {
            None
        }
    }

    /// Applies the outcome of a `popd` attempt. On an empty stack nothing
    /// changes and the empty-stack error is reported. When entering the
    /// top entry succeeded, the entry is removed and becomes the working
    /// directory. When it failed, the state is left exactly as it was:
    /// the pop is transactional.
    pub fn apply_popd(&mut self, chdir_ok: bool) -> (r: PopdReport)
        ensures
            old(self)@.stack.len() == 0 ==> final(self)@ == old(self)@ && r is EmptyStack,
            old(self)@.stack.len() > 0 && chdir_ok ==> final(self)@ == spec_popd(old(self)@) && (r
                matches PopdReport::ChangedTo(p) && p@ == old(self)@.stack[0]),
            old(self)@.stack.len() > 0 && !chdir_ok ==> final(self)@ == old(self)@ && (r matches
                PopdReport::ChangeFailed(p) && p@ == old(self)@.stack[0]),
    {
        if self.stack.len() == 0 {
            PopdReport::EmptyStack
        } else if chdir_ok {
            let top = self.stack.remove(0);
            self.cwd = top.clone();
            proof {
                assert(self@.stack =~= old(self)@.stack.drop_first());
                assert(top@ == old(self)@.stack[0]);
            }
            PopdReport::ChangedTo(top)
        } else {
            proof {
                assert(self.stack@[0]@ == old(self)@.stack[0]);
            }
            PopdReport::ChangeFailed(self.stack[0].clone())
        }
    }

    /// How many saved directories the stack holds.
    pub fn depth(&self) -> (r: usize)
        ensures
            r == self@.stack.len(),
    {
        self.stack.len()
    }

    /// The line `dirs` prints: the working directory followed by each
    /// stack entry, most recent first, space-separated.
    pub fn dirs_line(&self) -> (r: String)
        ensures
            r@ == spec_dirs_line(self@),
    {
        let mut out = self.cwd.clone();
        let mut i: usize = 0;
        proof {
            assert(self@.stack.subrange(0, 0) =~= Seq::<Seq<char>>::empty());
            assert(out@ =~= self@.cwd + spec_stack_suffix(self@.stack.subrange(0, 0)));
        }
        while i < self.stack.len()
            invariant
                i <= self@.stack.len(),
                self@.stack.len() == self.stack@.len(),
                out@ == self@.cwd + spec_stack_suffix(self@.stack.subrange(0, i as int)),
            decreases self@.stack.len() - i,
        {
            push_char(&mut out, ' ');
            out.append(self.stack[i].as_str());
            i = i + 1;
            proof {
                let pre = self@.stack.subrange(0, i - 1);
                let cur = self@.stack.subrange(0, i as int);
                assert(cur =~= pre.push(self@.stack[i - 1]));
                lemma_stack_suffix_push(pre, self@.stack[i - 1]);
                assert(self.stack@[i - 1]@ == self@.stack[i - 1]);
                assert(out@ =~= self@.cwd + spec_stack_suffix(cur));
            }
        }
        proof {
            assert(self@.stack.subrange(0, self@.stack.len() as int) =~= self@.stack);
        }
        out
    }
}

/// The `dirs` suffix for a stack: one space before each entry, in stack
/// order.
pub open spec fn spec_stack_suffix(stack: Seq<Seq<char>>) -> Seq<char>
    decreases stack.len(),
{
    if stack.len() == 0 {
        Seq::empty()
    } else {
        seq![' '] + stack[0] + spec_stack_suffix(stack.drop_first())
    }
}

/// The full `dirs` line for a directory state.
pub open spec fn spec_dirs_line(m: DirModel) -> Seq<char> {
    m.cwd + spec_stack_suffix(m.stack)
}

proof fn lemma_stack_suffix_push(stack: Seq<Seq<char>>, entry: Seq<char>)
    ensures
        spec_stack_suffix(stack.push(entry)) == spec_stack_suffix(stack) + seq![' '] + entry,
    decreases stack.len(),
{
    if stack.len() == 0 {
        let p = stack.push(entry);
        assert(p[0] == entry);
        assert(p.drop_first() =~= Seq::<Seq<char>>::empty());
        assert(spec_stack_suffix(p.drop_first()) == Seq::<char>::empty());
        assert(spec_stack_suffix(p) == seq![' '] + p[0] + spec_stack_suffix(p.drop_first()));
        assert(spec_stack_suffix(p) =~= seq![' '] + entry);
        assert(spec_stack_suffix(stack) + seq![' '] + entry =~= seq![' '] + entry);
    } else {
        lemma_stack_suffix_push(stack.drop_first(), entry);
        assert(stack.push(entry).drop_first() =~= stack.drop_first().push(entry));
        assert(stack.push(entry)[0] == stack[0]);
        assert(spec_stack_suffix(stack.push(entry)) =~= spec_stack_suffix(stack) + seq![' ']
            + entry);
    }
}

} // verus!

use vstd::prelude::*;

verus! {

/// What a command line asks the interpreter to do.
pub enum Action {
    /// No words: nothing to do.
    Nothing,
    /// The `cd` builtin, with the directory to change to.
    ChangeDir(String),
    /// The `cd` builtin without its argument: reported to the user.
    MissingDirectory,
    /// Run the program named by the first word, with all the words as its arguments.
    Launch,
}

/// The word that names the directory-change builtin.
pub open spec fn is_cd(w: Seq<char>) -> bool {
    w == seq!['c', 'd']
}

fn word_is_cd(w: &String) -> (r: bool)
    ensures
        r == is_cd(w@),
{
    let s = w.as_str();
    if s.unicode_len() == 2 && s.get_char(0) == 'c' && s.get_char(1) == 'd' {
        assert(s@ =~= seq!['c', 'd']);
        true
    } else {
        false
    }
}

/// Decides what to do with the words of a command: nothing when there are
/// none, the `cd` builtin when the first word is exactly `cd`, and otherwise
/// launching the program that the first word names.
pub fn run_command(command: &Vec<String>) -> (a: Action)
    ensures
        command@.len() == 0 ==> a is Nothing,
        command@.len() > 0 && !is_cd(command@[0]@) ==> a is Launch,
        command@.len() == 1 && is_cd(command@[0]@) ==> a is MissingDirectory,
        command@.len() > 1 && is_cd(command@[0]@) ==> a is ChangeDir && a->ChangeDir_0@
            == command@[1]@,
{
    if command.len() == 0 {
        return Action::Nothing;
    }
    if word_is_cd(&command[0]) {
        if command.len() <= 1 {
            Action::MissingDirectory
        } else {
            Action::ChangeDir(command[1].clone())
        }
    } else {
        Action::Launch
    }
}

/// Builtins other than `cd`: there are none, so this does nothing.
pub fn run_builtin(command: &Vec<String>) {
}

/// Relies on `libc::WIFEXITED`: the child exited normally exactly when the
/// low seven bits of its wait status are zero.
#[verifier::external_body]
fn exited(status: i32) -> (r: bool)
    ensures
        r == (status & 0x7f == 0),
{
    libc::WIFEXITED(status)
}

/// Relies on `libc::WIFSIGNALED`: the child was killed by a signal exactly
/// when the low seven bits of its wait status are neither zero nor `0x7f`
/// (the value of a stopped child).
#[verifier::external_body]
fn signaled(status: i32) -> (r: bool)
    ensures
        r == (status & 0x7f != 0 && status & 0x7f != 0x7f),
{
    libc::WIFSIGNALED(status)
}

/// Whether a wait status ends the wait for a child: it exited or was killed
/// by a signal. A child that was only stopped is waited for further.
pub fn child_finished(status: i32) -> (r: bool)
    ensures
        r == (status & 0x7f != 0x7f),
{
    exited(status) || signaled(status)
}

} // verus!

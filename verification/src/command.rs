use vstd::prelude::*;

verus! {

/// An external program to execute: the program, its arguments, and the number
/// of seconds to wait before it is launched.
///
/// The library never executes a command itself. It hands commands to the
/// driver, which reports back whether the program succeeded.
#[derive(Debug)]
pub struct Command {
    pub prog: String,
    pub args: Vec<String>,
    pub delay: u64,
}

/// The mathematical value of a [`Command`].
pub struct CommandView {
    pub prog: Seq<char>,
    pub args: Seq<Seq<char>>,
    pub delay: u64,
}

impl View for Command {
    type V = CommandView;

    open spec fn view(&self) -> CommandView {
        CommandView { prog: self.prog@, args: self.args.deep_view(), delay: self.delay }
    }
}

/// `std::io::Error`, the error of a command that failed. Opaque to the
/// verifier: the library only ever asks whether a result is `Ok` or `Err`.
#[verifier::external_type_specification]
#[verifier::external_body]
pub struct ExIoError(std::io::Error);

/// Makes the error with which the library itself reports a failure, by
/// `std::io::Error::other` with `reason` as its text. Nothing is assumed
/// about the error.
#[verifier::external_body]
pub(crate) fn failure(reason: &str) -> (error: std::io::Error) {
    std::io::Error::other(reason)
}

impl Clone for Command {
    fn clone(&self) -> (copy: Self)
        ensures
            copy@ == self@,
    {
        let args = self.args.clone();
        assert(args.deep_view() =~= self.args.deep_view());
        Command { prog: self.prog.clone(), args, delay: self.delay }
    }
}

} // verus!

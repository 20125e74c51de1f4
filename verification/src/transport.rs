//! What a transport over a spawned process decides before and while it talks to the
//! process: which protocol to ask for, whom to log in as, and what a read gives when
//! the process may have reported an error of its own.
use vstd::prelude::*;
use vstd::string::StringExecFns;

verus! {

/// The versions of the protocol.
#[derive(Clone, Copy, Debug, PartialEq, Eq, Hash, PartialOrd, Ord, Structural)]
pub enum Protocol {
    V1,
    V2,
}

impl Protocol {
    /// The number of the version.
    pub fn number(&self) -> (number: usize)
        ensures
            number == (match self {
                Protocol::V1 => 1usize,
                Protocol::V2 => 2usize,
            }),
    {
        match self {
            Protocol::V1 => 1,
            Protocol::V2 => 2,
        }
    }
}

/// The variables that are set for a process that serves a local repository: none for
/// the first version of the protocol, which every server speaks; else `GIT_PROTOCOL`
/// with the version that is asked for.
pub fn protocol_envs(version: Protocol) -> (envs: Vec<(&'static str, String)>)
    ensures
        version == Protocol::V1 ==> envs@.len() == 0,
        version == Protocol::V2 ==> envs@.len() == 1 && envs@[0].0@ == "GIT_PROTOCOL"@
            && envs@[0].1@ == "version=2"@,
{
    let mut envs: Vec<(&'static str, String)> = Vec::new();
    match version {
        Protocol::V1 => {},
        Protocol::V2 => {
            envs.push(("GIT_PROTOCOL", String::from_str("version=2")));
        },
    }
    envs
}

/// A byte of a value as it stands within single quotes for a shell: before a single
/// quote or an exclamation mark the quotes are closed, it follows a backslash, and the
/// quotes are opened again.
pub open spec fn escaped_byte(byte: u8) -> Seq<u8> {
    if byte == 0x27 || byte == 0x21 {
        seq![0x27u8, 0x5cu8, byte, 0x27u8]
    } else {
        seq![byte]
    }
}

/// `value` with every single quote and exclamation mark in it escaped for a shell.
pub open spec fn escaped(value: Seq<u8>) -> Seq<u8>
    decreases value.len(),
{
    if value.len() == 0 {
        Seq::empty()
    } else {
        escaped(value.drop_last()) + escaped_byte(value.last())
    }
}

/// `value` in single quotes for a shell, with every quote and exclamation mark in it
/// escaped.
pub open spec fn single_quoted(value: Seq<u8>) -> Seq<u8> {
    seq![0x27u8] + escaped(value) + seq![0x27u8]
}

/// Puts `value` in single quotes for a shell, with every single quote and exclamation
/// mark in it escaped.
pub fn quote_single(value: &[u8]) -> (quoted: Vec<u8>)
    ensures
        quoted@ == single_quoted(value@),
{
    let mut quoted: Vec<u8> = Vec::new();
    quoted.push(0x27);
    let mut i: usize = 0;
    assert(value@.take(0) =~= Seq::<u8>::empty());
    assert(quoted@ =~= seq![0x27u8] + escaped(value@.take(0)));
    while i < value.len()
        invariant
            i <= value@.len(),
            quoted@ == seq![0x27u8] + escaped(value@.take(i as int)),
        decreases value@.len() - i,
    {
        let byte = value[i];
        let ghost before = quoted@;
        if byte == 0x27 || byte == 0x21 {
            quoted.push(0x27);
            quoted.push(0x5c);
            quoted.push(byte);
            quoted.push(0x27);
        } else {
            quoted.push(byte);
        }
        proof {
            assert(value@.take(i + 1).drop_last() =~= value@.take(i as int));
            assert(value@.take(i + 1).last() == byte);
            assert(quoted@ =~= before + escaped_byte(byte));
            assert(quoted@ =~= seq![0x27u8] + escaped(value@.take(i + 1)));
        }
        i += 1;
    }
    assert(value@.take(value@.len() as int) =~= value@);
    quoted.push(0x27);
    quoted
}

/// The path of the repository as the process is told it: as it is for a local process,
/// and quoted for the shell of the remote side where the process is `ssh`.
pub fn repo_path_argument(uses_ssh: bool, path: &[u8]) -> (argument: Vec<u8>)
    ensures
        argument@ == (if uses_ssh {
            single_quoted(path@)
        } else {
            path@
        }),
{
    if uses_ssh {
        quote_single(path)
    } else {
        crate::config::lookup::copy_slice(path)
    }
}

/// A transport that cannot log in as somebody.
#[derive(Clone, Copy, Debug, PartialEq, Eq, Structural)]
pub struct AuthenticationUnsupported;

/// The user that a URL gets when an identity is set: only a URL with the scheme `ssh`
/// takes one, and an empty name takes the user away.
pub fn identity_user(scheme_is_ssh: bool, username: String) -> (user: Result<
    Option<String>,
    AuthenticationUnsupported,
>)
    ensures
        !scheme_is_ssh ==> user is Err,
        scheme_is_ssh ==> user == Ok::<Option<String>, AuthenticationUnsupported>(
            if username@.len() == 0 {
                None
            } else {
                Some(username)
            },
        ),
{
    if !scheme_is_ssh {
        return Err(AuthenticationUnsupported);
    }
    if username.as_str().unicode_len() == 0 {
        Ok(None)
    } else {
        Ok(Some(username))
    }
}

/// What to do after a read from the output of the process.
#[derive(Debug, PartialEq, Eq)]
pub enum ReadStep<E> {
    /// The read is done, with this result.
    Done(Result<usize, E>),
    /// Fewer bytes came than were wanted: wait a moment for an error of the process,
    /// which takes the place of the bytes if it comes.
    WaitBriefly { read: usize },
    /// The read failed: wait for the error of the process, which takes the place of
    /// the failure if there is one.
    WaitForError { failure: E },
}

/// Decides what a read of `wanted` bytes gives: an error that the process reported so
/// far takes the place of whatever was read; all bytes that were wanted are the result;
/// anything else waits for the process to report.
pub fn after_read<E>(reported: Option<E>, wanted: usize, res: Result<usize, E>) -> (step: ReadStep<E>)
    ensures
        step == (match reported {
            Some(err) => ReadStep::Done(Err(err)),
            None => match res {
                Ok(n) => if n == wanted {
                    ReadStep::Done(Ok(n))
                } else {
                    ReadStep::WaitBriefly { read: n }
                },
                Err(err) => ReadStep::WaitForError { failure: err },
            },
        }),
{
    match reported {
        Some(err) => ReadStep::Done(Err(err)),
        None => match res {
            Ok(n) => {
                if n == wanted {
                    ReadStep::Done(Ok(n))
                } else {
                    ReadStep::WaitBriefly { read: n }
                }
            },
            Err(err) => ReadStep::WaitForError { failure: err },
        },
    }
}

/// What a read gives after the wait: the error of the process if one came, else what
/// the read itself gave.
pub fn after_wait<E>(step: ReadStep<E>, reported: Option<E>) -> (res: Result<usize, E>)
    ensures
        res == (match step {
            ReadStep::Done(res) => res,
            ReadStep::WaitBriefly { read } => match reported {
                Some(err) => Err(err),
                None => Ok(read),
            },
            ReadStep::WaitForError { failure } => match reported {
                Some(err) => Err(err),
                None => Err(failure),
            },
        }),
{
    match step {
        ReadStep::Done(res) => res,
        ReadStep::WaitBriefly { read } => match reported {
            Some(err) => Err(err),
            None => Ok(read),
        },
        ReadStep::WaitForError { failure } => match reported {
            Some(err) => Err(err),
            None => Err(failure),
        },
    }
}

} // verus!

//! What the module decides when it talks to its host: which request it
//! makes, and what it makes of the host's answer. The requests and the
//! answers are plain values here; sending them is the caller's part.

use crate::decimal::{decimal, parse_decimal};
use crate::error::RedError;
use crate::key::read_text;
use vstd::prelude::*;
use vstd::slice::slice_to_vec;
use vstd::string::StringExecFns;
use vstd::utf8::{decode_utf8, encode_utf8, valid_utf8};

verus! {

/// How much a line of the log matters.
#[derive(Clone, Copy, Debug)]
pub enum LogLevel {
    Debug,
    Notice,
    Verbose,
    Warning,
}

/// An answer of the host to a command, as the module sees it.
#[derive(Debug)]
pub enum Reply {
    Array,
    Error,
    Integer(i64),
    Nil,
    String(String),
    Unknown,
}

/// An answer of the host to a command, as the host gives it.
#[derive(Debug)]
pub enum RawReply {
    Unknown,
    String(Vec<u8>),
    Error,
    Integer(i64),
    Array,
    Nil,
}

/// Whether the host did what it was asked to do.
#[derive(Clone, Copy, Debug, PartialEq, Eq, Structural)]
pub enum Status {
    Done,
    Refused,
}

/// What a key is opened for.
#[derive(Clone, Copy, Debug, PartialEq, Eq, Structural)]
pub enum KeyMode {
    Read,
    ReadWrite,
}

/// A text on its way to the host. Its view is the text.
#[derive(Debug)]
pub struct RedisString {
    text: String,
}

impl View for RedisString {
    type V = Seq<char>;

    closed spec fn view(&self) -> Seq<char> {
        self.text@
    }
}

impl RedisString {
    /// The text `s`, for the host.
    pub fn create(s: &str) -> (r: RedisString)
        ensures
            r@ == s@,
    {
        RedisString { text: String::from_str(s) }
    }

    /// The text.
    pub fn as_str(&self) -> (s: &str)
        ensures
            s@ == self@,
    {
        self.text.as_str()
    }
}

/// A command for the host: its name, one `s` for each argument, and the
/// arguments.
#[derive(Debug)]
pub struct CallRequest {
    pub command: String,
    pub format: String,
    pub args: Vec<RedisString>,
}

/// The text of `n` times the letter `s`.
pub open spec fn format_of(n: nat) -> Seq<char>
    decreases n,
{
    if n == 0 {
        Seq::empty()
    } else {
        format_of((n - 1) as nat) + "s"@
    }
}

/// The name under which the host knows the level.
pub open spec fn level_text(level: LogLevel) -> Seq<char> {
    match level {
        LogLevel::Debug => "debug"@,
        LogLevel::Notice => "notice"@,
        LogLevel::Verbose => "verbose"@,
        LogLevel::Warning => "warning"@,
    }
}

/// What the module makes of the host's answer `raw`.
pub open spec fn manifested(raw: RawReply, r: Result<Reply, RedError>) -> bool {
    match raw {
        RawReply::Integer(n) => r == Ok::<Reply, RedError>(Reply::Integer(n)),
        RawReply::Nil => r == Ok::<Reply, RedError>(Reply::Nil),
        RawReply::Unknown => r == Ok::<Reply, RedError>(Reply::Unknown),
        RawReply::String(bytes) => if valid_utf8(bytes@) {
            r matches Ok(Reply::String(text)) && text@ == decode_utf8(bytes@)
        } else {
            r matches Err(RedError::FromUtf8(_))
        },
        RawReply::Error => r matches Err(RedError::Generic(g)) && g.message()
            == "Redis replied with an error."@,
        RawReply::Array => r matches Err(RedError::Generic(g)) && g.message()
            == "Don't yet handle Redis type: Array"@,
    }
}

/// Says what the host's status means: nothing where it did what it was
/// asked, else an error with `message`.
pub fn handle_status(status: Status, message: &str) -> (r: Result<(), RedError>)
    ensures
        status == Status::Done ==> r is Ok,
        status == Status::Refused ==> (r matches Err(RedError::Generic(g)) && g.message() == message@),
{
    match status {
        Status::Done => Ok(()),
        Status::Refused => Err(RedError::generic(message)),
    }
}

/// The host's number for the mode: 1 to read, 3 to read and write.
pub fn to_raw_mode(mode: KeyMode) -> (raw: i32)
    ensures
        raw == match mode {
            KeyMode::Read => 1i32,
            KeyMode::ReadWrite => 3i32,
        },
{
    match mode {
        KeyMode::Read => 1,
        KeyMode::ReadWrite => 3,
    }
}

/// Turns the host's answer to a command into the module's: numbers,
/// nothing and the unknown pass, bytes must be UTF-8 text, and an error
/// or an array is an error.
pub fn manifest_redis_reply(raw: RawReply) -> (r: Result<Reply, RedError>)
    ensures
        manifested(raw, r),
{
    match raw {
        RawReply::Integer(n) => Ok(Reply::Integer(n)),
        RawReply::Nil => Ok(Reply::Nil),
        RawReply::String(bytes) => match read_text(bytes.as_slice()) {
            Ok(text) => Ok(Reply::String(text)),
            Err(e) => Err(e),
        },
        RawReply::Unknown => Ok(Reply::Unknown),
        RawReply::Error => Err(RedError::generic("Redis replied with an error.")),
        RawReply::Array => Err(RedError::generic("Don't yet handle Redis type: Array")),
    }
}

/// A command that the module adds to its host.
pub trait Command {
    /// The name under which the host knows the command.
    fn name(&self) -> &'static str;

    /// Runs the command with the arguments `args`.
    fn run(&self, r: Redis, args: &[&str]) -> Result<(), RedError>;

    /// The flags of the command, as the host reads them: words with
    /// blanks between them.
    fn str_flags(&self) -> &'static str;
}

/// Reads the arguments of a command, which the host gives as bytes, as
/// texts. All of them must be UTF-8.
pub fn parse_args(argv: &[Vec<u8>]) -> (r: Result<Vec<String>, RedError>)
    ensures
        r is Ok == (forall|i: int| 0 <= i < argv@.len() ==> valid_utf8(#[trigger] argv@[i]@)),
        r matches Ok(args) ==> args@.len() == argv@.len() && forall|i: int|
            0 <= i < argv@.len() ==> (#[trigger] args@[i])@ == decode_utf8(argv@[i]@),
        r matches Err(e) ==> e is FromUtf8,
{
    let mut args: Vec<String> = Vec::new();
    let mut i: usize = 0;
    while i < argv.len()
        invariant
            i <= argv@.len(),
            args@.len() == i,
            forall|j: int| 0 <= j < i ==> valid_utf8(#[trigger] argv@[j]@),
            forall|j: int| 0 <= j < i ==> (#[trigger] args@[j])@ == decode_utf8(argv@[j]@),
        decreases argv@.len() - i,
    {
        match read_text(argv[i].as_slice()) {
            Ok(text) => {
                args.push(text);
            },
            Err(e) => {
                return Err(e);
            },
        }
        i += 1;
    }
    Ok(args)
}

/// The module's side of the talk with its host.
#[derive(Clone, Copy, Debug)]
pub struct Redis {}

impl Redis {
    /// The command `command` with the arguments `args`, as the host
    /// takes it. The host takes one to four arguments.
    pub fn call(&self, command: &str, args: &[&str]) -> (r: Result<CallRequest, RedError>)
        ensures
            r is Ok == (1 <= args@.len() <= 4),
            r matches Ok(req) ==> {
                &&& req.command@ == command@
                &&& req.format@ == format_of(args@.len())
                &&& req.args@.len() == args@.len()
                &&& forall|i: int| 0 <= i < args@.len() ==> (#[trigger] req.args@[i])@ == args@[i]@
            },
            r matches Err(e) ==> (e matches RedError::Generic(g) && g.message()
                == "Can't support that many CALL arguments"@),
    {
        let n = args.len();
        if n < 1 || n > 4 {
            return Err(RedError::generic("Can't support that many CALL arguments"));
        }
        let mut format = String::new();
        let mut terminated: Vec<RedisString> = Vec::new();
        let mut i: usize = 0;
        while i < n
            invariant
                i <= n,
                n == args@.len(),
                format@ == format_of(i as nat),
                terminated@.len() == i,
                forall|j: int| 0 <= j < i ==> (#[trigger] terminated@[j])@ == args@[j]@,
            decreases n - i,
        {
            format.append("s");
            terminated.push(self.create_string(args[i]));
            i += 1;
        }
        Ok(CallRequest { command: String::from_str(command), format, args: terminated })
    }

    /// Reads a reply that is a text as an integer, where the text
    /// writes one in decimal. Other replies, and errors, pass.
    pub fn coerce_integer(&self, reply_res: Result<Reply, RedError>) -> (r: Result<Reply, RedError>)
        ensures
            match reply_res {
                Ok(Reply::String(s)) => match decimal(encode_utf8(s@)) {
                    Some(n) => r == Ok::<Reply, RedError>(Reply::Integer(n)),
                    None => r == reply_res,
                },
                _ => r == reply_res,
            },
    {
        match reply_res {
            Ok(Reply::String(s)) => match parse_decimal(s.as_str().as_bytes()) {
                Some(n) => Ok(Reply::Integer(n)),
                None => Ok(Reply::String(s)),
            },
            other => other,
        }
    }

    /// The text `s`, for the host.
    pub fn create_string(&self, s: &str) -> (r: RedisString)
        ensures
            r@ == s@,
    {
        RedisString::create(s)
    }

    /// A line for the host's log: the name of the level, and the
    /// message.
    pub fn log(&self, level: LogLevel, message: &str) -> (line: (String, String))
        ensures
            line.0@ == level_text(level),
            line.1@ == message@,
    {
        let name = match level {
            LogLevel::Debug => "debug",
            LogLevel::Notice => "notice",
            LogLevel::Verbose => "verbose",
            LogLevel::Warning => "warning",
        };
        (String::from_str(name), String::from_str(message))
    }

    /// A line for the host's log at the level of a notice, so that it
    /// shows with the host's settings as they come.
    pub fn log_debug(&self, message: &str) -> (line: (String, String))
        ensures
            line.0@ == level_text(LogLevel::Notice),
            line.1@ == message@,
    {
        self.log(LogLevel::Notice, message)
    }

    /// The key `key` as it was opened for reading, with what the host
    /// holds under it: nothing where the host has no such key.
    pub fn open_key(&self, key: &str, held: Option<Vec<u8>>) -> (k: RedisKey)
        ensures
            k.name() == key@,
            k.held() == held,
    {
        RedisKey { key_str: self.create_string(key), held }
    }

    /// The key `key` as it was opened for reading and writing, with the
    /// bytes that the host holds under it.
    pub fn open_key_writable(&self, key: &str, held: Vec<u8>) -> (k: RedisKeyWritable)
        ensures
            k.name() == key@,
            k.held() == held@,
    {
        RedisKeyWritable { key_str: self.create_string(key), held }
    }

    /// The text `message` as a reply, for the host.
    pub fn reply_string(&self, message: &str) -> (r: RedisString)
        ensures
            r@ == message@,
    {
        self.create_string(message)
    }
}

/// A key of the host that was opened for reading.
#[derive(Debug)]
pub struct RedisKey {
    key_str: RedisString,
    held: Option<Vec<u8>>,
}

impl RedisKey {
    /// The name of the key.
    pub closed spec fn name(self) -> Seq<char> {
        self.key_str@
    }

    /// What the host holds under the key.
    pub closed spec fn held(self) -> Option<Vec<u8>> {
        self.held
    }

    /// Tells whether the host has no such key.
    pub fn is_null(&self) -> (r: bool)
        ensures
            r == (self.held() is None),
    {
        self.held.is_none()
    }

    /// The text under the key: nothing where the host has no such key,
    /// and an error where what it holds is no UTF-8 text.
    pub fn read(&self) -> (r: Result<Option<String>, RedError>)
        ensures
            match self.held() {
                None => r matches Ok(None),
                Some(bytes) => if valid_utf8(bytes@) {
                    r matches Ok(Some(text)) && text@ == decode_utf8(bytes@)
                } else {
                    r matches Err(RedError::FromUtf8(_))
                },
            },
    {
        match &self.held {
            None => Ok(None),
            Some(bytes) => match read_text(bytes.as_slice()) {
                Ok(text) => Ok(Some(text)),
                Err(e) => Err(e),
            },
        }
    }
}

/// A key of the host that was opened for reading and writing.
#[derive(Debug)]
pub struct RedisKeyWritable {
    key_str: RedisString,
    held: Vec<u8>,
}

impl RedisKeyWritable {
    /// The name of the key.
    pub closed spec fn name(self) -> Seq<char> {
        self.key_str@
    }

    /// The bytes that the host holds under the key.
    pub closed spec fn held(self) -> Seq<u8> {
        self.held@
    }

    /// Tells whether the text under the key is empty. What the host
    /// holds must be UTF-8 text.
    pub fn is_empty(&self) -> (r: Result<bool, RedError>)
        ensures
            if valid_utf8(self.held()) {
                r matches Ok(empty) && empty == (self.held().len() == 0)
            } else {
                r matches Err(RedError::FromUtf8(_))
            },
    {
        match read_text(self.held.as_slice()) {
            Ok(_) => Ok(self.held.len() == 0),
            Err(e) => Err(e),
        }
    }

    /// The text under the key, and an error where what the host holds is
    /// no UTF-8 text.
    pub fn read(&self) -> (r: Result<Option<String>, RedError>)
        ensures
            if valid_utf8(self.held()) {
                r matches Ok(Some(text)) && text@ == decode_utf8(self.held())
            } else {
                r matches Err(RedError::FromUtf8(_))
            },
    {
        match read_text(self.held.as_slice()) {
            Ok(text) => Ok(Some(text)),
            Err(e) => Err(e),
        }
    }

    /// Takes note of what became of writing the text `val` under the
    /// key: where the host wrote it, the key holds it now; where the host
    /// refused, the key holds what it held, and the call fails.
    pub fn write(&mut self, val: &str, status: Status) -> (r: Result<(), RedError>)
        ensures
            final(self).name() == old(self).name(),
            status == Status::Done ==> (r is Ok) && final(self).held() == encode_utf8(val@),
            status == Status::Refused ==> final(self).held() == old(self).held() && (r matches Err(
                RedError::Generic(g),
            ) && g.message() == "Error while setting key"@),
    {
        match status {
            Status::Done => {
                self.held = slice_to_vec(val.as_bytes());
                Ok(())
            },
            Status::Refused => Err(RedError::generic("Error while setting key")),
        }
    }
}

} // verus!

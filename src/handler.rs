use vstd::prelude::*;

use crate::encode_error;
use crate::error_reply;
use crate::table::{get_reply, nil_reply, ok_reply, Table};

verus! {

/// The verbs that the store understands.
#[derive(Debug, Clone, Copy, PartialEq, Eq, Structural)]
pub enum CommandTypes {
    SetKey,
    Get,
}

/// The verb is not one that the store understands.
#[derive(Debug)]
pub struct CommandParseError;

/// The verb that `s` names; matching is exact and case-sensitive.
pub open spec fn verb_spec(s: Seq<char>) -> Option<CommandTypes> {
    if s == "SET"@ {
        Some(CommandTypes::SetKey)
    } else if s == "GET"@ {
        Some(CommandTypes::Get)
    } else {
        None
    }
}

impl CommandTypes {
    /// The verb that `s` names, or an error when it names none.
    pub fn from_verb(s: &str) -> (r: Result<CommandTypes, CommandParseError>)
        ensures
            match verb_spec(s@) {
                Some(c) => r == Ok::<CommandTypes, CommandParseError>(c),
                None => r is Err,
            },
    {
        let given = String::from_str(s);
        if given == String::from_str("SET") {
            Ok(CommandTypes::SetKey)
        } else if given == String::from_str("GET") {
            Ok(CommandTypes::Get)
        } else {
            Err(CommandParseError)
        }
    }
}

impl std::str::FromStr for CommandTypes {
    type Err = CommandParseError;

    fn from_str(s: &str) -> (r: Result<CommandTypes, CommandParseError>)
        ensures
            match verb_spec(s@) {
                Some(c) => r == Ok::<CommandTypes, CommandParseError>(c),
                None => r is Err,
            },
    {
        CommandTypes::from_verb(s)
    }
}

/// A command whose verb and arity have been checked.
#[derive(Debug)]
pub enum Request {
    /// Read the value of a key.
    Get(String),
    /// Map a key to a value.
    SetKey(String, String),
}

/// A checked command, in terms of plain values.
pub ghost enum Op {
    Get(Seq<char>),
    SetKey(Seq<char>, Seq<char>),
}

impl View for Request {
    type V = Op;

    open spec fn view(&self) -> Op {
        match self {
            Request::Get(k) => Op::Get(k@),
            Request::SetKey(k, v) => Op::SetKey(k@, v@),
        }
    }
}

pub open spec fn no_command_message() -> Seq<char> {
    "Expected command"@
}

pub open spec fn unknown_command_message() -> Seq<char> {
    "Received invalid command"@
}

pub open spec fn get_arity_message() -> Seq<char> {
    "Wrong number of arguments for 'get' command, expected key"@
}

/// The message for a `SET` with `n` arguments, `n` not being two.
pub open spec fn set_arity_message(n: int) -> Seq<char> {
    if n == 0 {
        "Wrong number of arguments for 'set' command, expected key"@
    } else if n == 1 {
        "Wrong number of arguments for 'set' command, expected value"@
    } else {
        "Wrong number of arguments for 'set' command, expected key and value"@
    }
}

/// The operation that the arguments `req` ask for, or the message of the error
/// that they draw: `GET` takes exactly one argument, `SET` exactly two.
pub open spec fn op_spec(req: Seq<Seq<char>>) -> Result<Op, Seq<char>> {
    if req.len() == 0 {
        Err(no_command_message())
    } else {
        match verb_spec(req[0]) {
            None => Err(unknown_command_message()),
            Some(CommandTypes::Get) => {
                if req.len() == 2 {
                    Ok(Op::Get(req[1]))
                } else {
                    Err(get_arity_message())
                }
            },
            Some(CommandTypes::SetKey) => {
                if req.len() == 3 {
                    Ok(Op::SetKey(req[1], req[2]))
                } else {
                    Err(set_arity_message(req.len() - 1))
                }
            },
        }
    }
}

/// The reply to `op` on the mapping `m`, and the mapping afterwards.
pub open spec fn apply_spec(op: Op, m: Map<Seq<char>, Seq<char>>) -> (
    Seq<char>,
    Map<Seq<char>, Seq<char>>,
) {
    match op {
        Op::Get(k) => (get_reply(m, k), m),
        Op::SetKey(k, v) => (ok_reply(), m.insert(k, v)),
    }
}

/// The outcome of the command `req` on the mapping `m`: the reply (an error
/// reply on the `Err` side) and the mapping afterwards.
pub open spec fn request_spec(req: Seq<Seq<char>>, m: Map<Seq<char>, Seq<char>>) -> (
    Result<Seq<char>, Seq<char>>,
    Map<Seq<char>, Seq<char>>,
) {
    match op_spec(req) {
        Err(msg) => (Err(error_reply(msg)), m),
        Ok(op) => (Ok(apply_spec(op, m).0), apply_spec(op, m).1),
    }
}

/// The text of a reply, on either side.
pub open spec fn reply_view(r: Result<String, String>) -> Result<Seq<char>, Seq<char>> {
    match r {
        Ok(s) => Ok(s@),
        Err(s) => Err(s@),
    }
}

/// Checks the verb and the arity of a decoded command; on failure, returns the
/// error reply.
pub fn parse_request(request: Vec<String>) -> (r: Result<Request, String>)
    ensures
        match op_spec(request.deep_view()) {
            Ok(op) => r matches Ok(q) && q@ == op,
            Err(msg) => r matches Err(e) && e@ == error_reply(msg),
        },
{
    let ghost req = request.deep_view();
    let n = request.len();
    if n == 0 {
        return Err(encode_error("Expected command"));
    }
    assert(request[0]@ == req[0]);
    let command = match CommandTypes::from_verb(request[0].as_str()) {
        Ok(c) => c,
        Err(_) => return Err(encode_error("Received invalid command")),
    };
    match command {
        CommandTypes::Get => {
            if n != 2 {
                return Err(encode_error("Wrong number of arguments for 'get' command, expected key"));
            }
            assert(request[1]@ == req[1]);
            Ok(Request::Get(request[1].clone()))
        },
        CommandTypes::SetKey => {
            if n == 1 {
                return Err(encode_error("Wrong number of arguments for 'set' command, expected key"));
            }
            if n == 2 {
                return Err(
                    encode_error("Wrong number of arguments for 'set' command, expected value"),
                );
            }
            if n != 3 {
                return Err(
                    encode_error(
                        "Wrong number of arguments for 'set' command, expected key and value",
                    ),
                );
            }
            assert(request[1]@ == req[1]);
            assert(request[2]@ == req[2]);
            Ok(Request::SetKey(request[1].clone(), request[2].clone()))
        },
    }
}

/// Performs a checked command on the store and returns its reply.
pub fn execute(op: Request, table: &mut Table) -> (r: String)
    ensures
        (r@, final(table)@) == apply_spec(op@, old(table)@),
{
    match op {
        Request::Get(k) => table.get(k),
        Request::SetKey(k, v) => table.set(k, v),
    }
}

/// Answers one decoded command against the store: `Ok` with the reply to a
/// well-formed `GET` or `SET`, `Err` with an error reply otherwise, in which
/// case the store is left as it was.
pub fn handle_request(request: Vec<String>, table: &mut Table) -> (r: Result<String, String>)
    ensures
        (reply_view(r), final(table)@) == request_spec(
            request.deep_view(),
            old(table)@,
        ),
{
    match parse_request(request) {
        Err(e) => Err(e),
        Ok(op) => Ok(execute(op, table)),
    }
}

proof fn lemma_verbs()
    ensures
        verb_spec("SET"@) == Some(CommandTypes::SetKey),
        verb_spec("GET"@) == Some(CommandTypes::Get),
{
    reveal_strlit("SET");
    reveal_strlit("GET");
    assert("GET"@ != "SET"@) by {
        assert("GET"@[0] != "SET"@[0]);
    }
}

/// A value written under a key is read back exactly, whatever it holds.
pub proof fn set_then_get(m: Map<Seq<char>, Seq<char>>, k: Seq<char>, v: Seq<char>)
    ensures
        request_spec(seq!["SET"@, k, v], m).0 == Ok::<Seq<char>, Seq<char>>(ok_reply()),
        request_spec(seq!["GET"@, k], request_spec(seq!["SET"@, k, v], m).1).0 == Ok::<
            Seq<char>,
            Seq<char>,
        >(v),
{
    lemma_verbs();
}

/// Reading a key that holds no value gives the nil reply, which is not the
/// empty value, and changes nothing.
pub proof fn get_absent(m: Map<Seq<char>, Seq<char>>, k: Seq<char>)
    requires
        !m.contains_key(k),
    ensures
        request_spec(seq!["GET"@, k], m) == (Ok::<Seq<char>, Seq<char>>(nil_reply()), m),
        nil_reply() != Seq::<char>::empty(),
{
    lemma_verbs();
    reveal_strlit("+");
    assert("+"@.len() == 1);
    assert(nil_reply().len() > 0);
}

/// The later of two writes of a key is the one read back.
pub proof fn overwrite(m: Map<Seq<char>, Seq<char>>, k: Seq<char>, v1: Seq<char>, v2: Seq<char>)
    ensures
        request_spec(
            seq!["GET"@, k],
            request_spec(seq!["SET"@, k, v2], request_spec(seq!["SET"@, k, v1], m).1).1,
        ).0 == Ok::<Seq<char>, Seq<char>>(v2),
{
    lemma_verbs();
}

/// `SET` without a value and `GET` without a key draw an arity error and leave
/// the store as it was.
pub proof fn arity_errors(m: Map<Seq<char>, Seq<char>>, k: Seq<char>)
    ensures
        request_spec(seq!["SET"@, k], m) == (
            Err::<Seq<char>, Seq<char>>(error_reply(set_arity_message(1))),
            m,
        ),
        request_spec(seq!["GET"@], m) == (
            Err::<Seq<char>, Seq<char>>(error_reply(get_arity_message())),
            m,
        ),
{
    lemma_verbs();
}

/// Writes of two different keys commute: whichever order the store serves them
/// in, both values are there afterwards and the store is the same.
pub proof fn distinct_writes_commute(
    m: Map<Seq<char>, Seq<char>>,
    k1: Seq<char>,
    v1: Seq<char>,
    k2: Seq<char>,
    v2: Seq<char>,
)
    requires
        k1 != k2,
    ensures
        request_spec(seq!["SET"@, k2, v2], request_spec(seq!["SET"@, k1, v1], m).1).1
            == request_spec(seq!["SET"@, k1, v1], request_spec(seq!["SET"@, k2, v2], m).1).1,
        request_spec(
            seq!["GET"@, k1],
            request_spec(seq!["SET"@, k2, v2], request_spec(seq!["SET"@, k1, v1], m).1).1,
        ).0 == Ok::<Seq<char>, Seq<char>>(v1),
{
    lemma_verbs();
    assert(m.insert(k1, v1).insert(k2, v2) =~= m.insert(k2, v2).insert(k1, v1));
}

/// Any first argument other than `GET` and `SET` draws the unknown-command
/// error and leaves the store as it was.
pub proof fn unknown_verb(req: Seq<Seq<char>>, m: Map<Seq<char>, Seq<char>>)
    requires
        req.len() > 0,
        req[0] != "GET"@,
        req[0] != "SET"@,
    ensures
        request_spec(req, m) == (
            Err::<Seq<char>, Seq<char>>(error_reply(unknown_command_message())),
            m,
        ),
{
}

} // verus!

//! The command executor: a function from command, store and current instant
//! to the next store state and the response, specified exactly by
//! [`execute_spec`].

use vstd::prelude::*;

use crate::commands::{response_view, Command, CommandResponse, CommandResponseV, CommandV};
use crate::db::{DbV, HashMapDb};
use crate::text;

verus! {

use vstd::string::StringExecFns;

/// The absolute expiry instant a relative TTL stands for: `now` plus the
/// TTL, saturating at the end of time.
pub open spec fn abs_expiry(now: u64, ttl: Option<u64>) -> Option<u64> {
    match ttl {
        Some(d) => if now + d > u64::MAX {
            Some(u64::MAX)
        } else {
            Some((now + d) as u64)
        },
        None => None,
    }
}

/// What `incr` does: read the key (with the usual touch or expiry side
/// effect), then bind it to one more than its numeric value, or to 1 when
/// it was absent. A value that does not parse as an unsigned number, or one
/// that cannot grow, earns an error response and no write.
pub open spec fn execute_incr_spec(key: Seq<char>, s: DbV, now: u64) -> (DbV, CommandResponseV) {
    let s1 = s.get_state(key, now);
    match s.get_result(key, now) {
        None => (
            s1.set_state(key, text::dec_str(1), None),
            CommandResponseV::SimpleString { value: "OK"@ },
        ),
        Some(v) => match text::parse_u64(v) {
            Some(n) => if n < u64::MAX {
                (
                    s1.set_state(key, text::dec_str(n + 1), None),
                    CommandResponseV::SimpleString { value: "OK"@ },
                )
            } else {
                (s1, CommandResponseV::ErrorMsg { value: "value is not an integer"@ })
            },
            None => (s1, CommandResponseV::ErrorMsg { value: "value is not an integer"@ }),
        },
    }
}

/// The store after one command, and the response to it.
pub open spec fn execute_spec(cmd: CommandV, s: DbV, now: u64) -> (DbV, CommandResponseV) {
    match cmd {
        CommandV::Get { key } => (
            s.get_state(key, now),
            CommandResponseV::SimpleString {
                value: match s.get_result(key, now) {
                    Some(v) => v,
                    None => "not found"@,
                },
            },
        ),
        CommandV::SetKv { key, value, ttl } => (
            s.set_state(key, value, abs_expiry(now, ttl)),
            CommandResponseV::SimpleString { value: "OK"@ },
        ),
        CommandV::Del { key } => (
            s.del_state(key),
            CommandResponseV::SimpleString { value: "OK"@ },
        ),
        CommandV::Exists { key } => (
            s.get_state(key, now),
            CommandResponseV::Integer {
                value: if s.get_result(key, now) is Some {
                    1
                } else {
                    0
                },
            },
        ),
        CommandV::Docs => (s, CommandResponseV::Array { value: Seq::empty() }),
        CommandV::Config => (s, CommandResponseV::SimpleString { value: "OK"@ }),
        CommandV::Ping => (s, CommandResponseV::SimpleString { value: "PONG"@ }),
        CommandV::Incr { key } => execute_incr_spec(key, s, now),
        CommandV::FlushDb => (
            s.flush_state(),
            CommandResponseV::SimpleString { value: "OK"@ },
        ),
    }
}

/// Run one command against the store at instant `now` and answer it, as
/// [`execute_spec`] lays out.
pub fn execute_command(cmd: Command, db: &mut HashMapDb, now: u64) -> (r: CommandResponse)
    requires
        old(db)@.wf(),
    ensures
        final(db)@ == execute_spec(cmd@, old(db)@, now).0,
        r.deep_view() == execute_spec(cmd@, old(db)@, now).1,
        final(db)@.wf(),
{
    match cmd {
        Command::Get { key } => {
            let value = match db.get(key.as_str(), now) {
                Some(v) => v,
                None => String::from_str("not found"),
            };
            CommandResponse::String { value }
        },
        Command::SetValue { key, value, ttl } => {
            let abs: Option<u64> = match ttl {
                Some(d) => Some(now.saturating_add(d)),
                None => None,
            };
            proof {
                assert(abs == abs_expiry(now, ttl));
            }
            db.set(key.as_str(), value, abs);
            CommandResponse::String { value: String::from_str("OK") }
        },
        Command::Del { key } => {
            db.del(key.as_str());
            CommandResponse::String { value: String::from_str("OK") }
        },
        Command::Exists { key } => {
            let present = db.exists_key(key.as_str(), now);
            CommandResponse::Integer {
                value: if present {
                    1
                } else {
                    0
                },
            }
        },
        Command::Docs => {
            let items: Vec<CommandResponse> = Vec::new();
            let ghost iv = items@;
            let r = CommandResponse::Array { value: items };
            proof {
                let dv = response_view(r);
                assert(dv is Array);
                assert(dv->Array_value =~= Seq::<CommandResponseV>::empty());
                assert(dv == CommandResponseV::Array { value: Seq::empty() });
            }
            r
        },
        Command::Config => CommandResponse::String { value: String::from_str("OK") },
        Command::Ping => CommandResponse::String { value: String::from_str("PONG") },
        Command::Incr { key } => {
            match db.get(key.as_str(), now) {
                None => {
                    db.set(key.as_str(), text::u64_to_string(1), None);
                    CommandResponse::String { value: String::from_str("OK") }
                },
                Some(cur) => {
                    match text::parse_u64_exec(cur.as_str()) {
                        Some(n) => {
                            if n < u64::MAX {
                                db.set(key.as_str(), text::u64_to_string(n + 1), None);
                                CommandResponse::String { value: String::from_str("OK") }
                            } else {
                                CommandResponse::Error {
                                    value: String::from_str("value is not an integer"),
                                }
                            }
                        },
                        None => {
                            CommandResponse::Error {
                                value: String::from_str("value is not an integer"),
                            }
                        },
                    }
                },
            }
        },
        Command::FlushDb => {
            db.flush();
            CommandResponse::String { value: String::from_str("OK") }
        },
    }
}

} // verus!

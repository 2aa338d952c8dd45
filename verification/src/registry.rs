//! The command registry: an immutable-after-init mapping from command name
//! to handler.
//!
//! Handlers are named by [`HandlerId`]; [`crate::commands::dispatch`] turns
//! an id into the handler's behaviour.  The composition root builds the
//! registry once, before any connection is served, by explicit
//! [`Registry::register`] calls — [`Registry::builtin`] registers the whole
//! built-in command set — and after that only reads it, so sharing it
//! across connection tasks needs no lock.  Adding a command is one
//! `register` call and one dispatch arm; no central list needs editing
//! beyond that.

use vstd::prelude::*;
use vstd::string::StringSliceAdditionalSpecFns;

use crate::bytes::{bytes_eq, str_bytes};
use crate::error::Error;

verus! {

/// Name of one registered handler.
#[derive(Debug, Clone, Copy, PartialEq, Eq, Structural)]
pub enum HandlerId {
    /// Replies with a fixed `PONG`.
    Ping,
    /// Replies with build and version metadata.
    Version,
    /// Writes a key into the store.
    StoreSet,
    /// Reads a key from the store.
    StoreGet,
}

/// The handler a name resolves to among `entries`; a later registration of
/// the same name wins, as in a map insert.
pub open spec fn spec_lookup(entries: Seq<(Vec<u8>, HandlerId)>, name: Seq<u8>) -> Option<
    HandlerId,
>
    decreases entries.len(),
{
    if entries.len() == 0 {
        None
    } else if entries.last().0@ == name {
        Some(entries.last().1)
    } else {
        spec_lookup(entries.drop_last(), name)
    }
}

/// The mapping the built-in command set registers: the four commands,
/// under their upper-case wire names, and nothing else.
pub open spec fn spec_builtin(name: Seq<u8>) -> Option<HandlerId> {
    if name == "GET".spec_bytes() {
        Some(HandlerId::StoreGet)
    } else if name == "SET".spec_bytes() {
        Some(HandlerId::StoreSet)
    } else if name == "VERSION".spec_bytes() {
        Some(HandlerId::Version)
    } else if name == "PING".spec_bytes() {
        Some(HandlerId::Ping)
    } else {
        None
    }
}

/// A name that no registered entry carries resolves the same as if the
/// scanned suffix were not there.
proof fn lemma_lookup_prefix(entries: Seq<(Vec<u8>, HandlerId)>, name: Seq<u8>, i: int)
    requires
        0 <= i <= entries.len(),
        forall|j: int| i <= j < entries.len() ==> (#[trigger] entries[j]).0@ != name,
    ensures
        spec_lookup(entries, name) == spec_lookup(entries.take(i), name),
    decreases entries.len() - i,
{
    if i < entries.len() {
        assert(entries.last().0@ != name);
        assert(entries.drop_last() =~= entries.take(entries.len() - 1));
        lemma_lookup_prefix(entries.take(entries.len() - 1), name, i);
        assert(entries.take(entries.len() - 1).take(i) =~= entries.take(i));
    } else {
        assert(entries.take(i) =~= entries);
    }
}

/// The command-name-to-handler mapping, read-only once serving begins.
pub struct Registry {
    entries: Vec<(Vec<u8>, HandlerId)>,
}

impl Registry {
    /// The handler registered under `name`, if any; a later registration
    /// of the same name shadows an earlier one.
    pub closed spec fn lookup(&self, name: Seq<u8>) -> Option<HandlerId> {
        spec_lookup(self.entries@, name)
    }

    /// Makes a registry with nothing registered.
    pub fn new() -> (r: Registry)
        ensures
            forall|name: Seq<u8>| r.lookup(name) is None,
    {
        Registry { entries: Vec::new() }
    }

    /// Registers `handler` under `name`, shadowing any earlier entry of
    /// the same name.
    pub fn register(&mut self, name: Vec<u8>, handler: HandlerId)
        ensures
            forall|n: Seq<u8>|
                final(self).lookup(n) == if n == name@ {
                    Some(handler)
                } else {
                    old(self).lookup(n)
                },
    {
        self.entries.push((name, handler));
        proof {
            assert(self.entries@.drop_last() =~= old(self).entries@);
        }
    }

    /// Builds the registry of the built-in command set.  This is the one
    /// initialization step the composition root runs before serving.
    pub fn builtin() -> (r: Registry)
        ensures
            forall|name: Seq<u8>| #![auto] r.lookup(name) == spec_builtin(name),
    {
        let mut r = Registry::new();
        r.register(str_bytes("PING"), HandlerId::Ping);
        r.register(str_bytes("VERSION"), HandlerId::Version);
        r.register(str_bytes("SET"), HandlerId::StoreSet);
        r.register(str_bytes("GET"), HandlerId::StoreGet);
        r
    }

    /// Resolves a command name, exactly and case-sensitively; an unknown
    /// name is a `CommandNotFound` failure carrying that name, never fatal
    /// to the process.
    pub fn get_handler(&self, command: &Vec<u8>) -> (r: Result<HandlerId, Error>)
        ensures
            match r {
                Ok(h) => self.lookup(command@) == Some(h),
                Err(e) => self.lookup(command@) is None && (e matches Error::CommandNotFound(n)
                    && n@ == command@),
            },
    {
        let n = self.entries.len();
        let mut i = n;
        while i > 0
            invariant
                0 <= i <= n == self.entries@.len(),
                forall|j: int| i <= j < n ==> (#[trigger] self.entries@[j]).0@ != command@,
            decreases i,
        {
            i = i - 1;
            if bytes_eq(&self.entries[i].0, command) {
                proof {
                    lemma_lookup_prefix(self.entries@, command@, i as int + 1);
                    assert(self.entries@.take(i as int + 1).last() == self.entries@[i as int]);
                    assert(self.entries@.take(i as int + 1).drop_last() =~= self.entries@.take(
                        i as int,
                    ));
                }
                return Ok(self.entries[i].1);
            }
        }
        proof {
            lemma_lookup_prefix(self.entries@, command@, 0);
            assert(self.entries@.take(0) =~= Seq::<(Vec<u8>, HandlerId)>::empty());
        }
        Err(Error::CommandNotFound(vstd::slice::slice_to_vec(command.as_slice())))
    }
}

} // verus!

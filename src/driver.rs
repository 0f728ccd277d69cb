//! The session driver: one set of operations over the two backends.
//!
//! The cookie backend runs in memory and answers at once. The server-store
//! backend is reached by its caller; here it is the decision of what to do
//! next, from the handle's hydration state, and the step that the caller
//! performs and reports back.
use vstd::prelude::*;
use crate::codec::{kind_of, SessionValue, ValueKind, ValueModel};
use crate::cookie_map::{
    delete, read_spec, total_size, upsert, CookieMap, CookieMapError, EntryModel,
};
use crate::codec::encode_spec;

verus! {

/// The name of the cookie that carries a cookie-map session.
pub const PRIVATE_COOKIE_NAME: &'static str = "__loco_app_session";

/// Whether a server-store handle has loaded its record for this request.
#[derive(Debug, Clone, Copy, PartialEq, Eq, Structural)]
pub enum Hydration {
    Unloaded,
    Loaded,
    LoadFailed,
}

/// The shape of an operation, as far as hydration is concerned.
#[derive(Debug, Clone, Copy, PartialEq, Eq, Structural)]
pub enum OpKind {
    Insert,
    Get,
    Remove,
    Clear,
}

/// What a server-store handle asks its caller to do next.
#[derive(Debug, Clone, Copy, PartialEq, Eq, Structural)]
pub enum StoreAction {
    /// Load the session record from the store, then report the outcome.
    Load,
    /// Perform the operation against the loaded (or freshly cleared) record.
    Perform,
    /// Fail the operation: the record could not be loaded.
    Fail,
}

/// Why a server-store operation failed.
#[derive(Debug, Clone, Copy, PartialEq, Eq, Structural)]
pub enum StoreError {
    /// Loading the session record from the store failed.
    Hydration,
    /// The store could not be reached or timed out.
    Backend,
    /// A stored value could not be encoded, or read as the requested kind.
    Serialization,
}

/// The next action for an operation of kind `op` from state `h`. A clear
/// needs no load: it starts from an empty record.
pub open spec fn action_spec(h: Hydration, op: OpKind) -> StoreAction {
    match h {
        Hydration::Loaded => StoreAction::Perform,
        Hydration::LoadFailed => if op == OpKind::Clear {
            StoreAction::Perform
        } else {
            StoreAction::Fail
        },
        Hydration::Unloaded => if op == OpKind::Clear {
            StoreAction::Perform
        } else {
            StoreAction::Load
        },
    }
}

/// The state after an operation of kind `op` from `h` has taken its
/// course, a load (if one was asked for) having succeeded when `load_ok`.
pub open spec fn after_spec(h: Hydration, op: OpKind, load_ok: bool) -> Hydration {
    match action_spec(h, op) {
        StoreAction::Load => if load_ok { Hydration::Loaded } else { Hydration::LoadFailed },
        StoreAction::Perform => Hydration::Loaded,
        StoreAction::Fail => h,
    }
}

/// How many loads a run of operations from `h` asks for, each load
/// succeeding.
pub open spec fn loads_in(h: Hydration, ops: Seq<OpKind>) -> nat
    decreases ops.len(),
{
    if ops.len() == 0 {
        0
    } else {
        let first = if action_spec(h, ops[0]) == StoreAction::Load { 1nat } else { 0nat };
        first + loads_in(after_spec(h, ops[0], true), ops.drop_first())
    }
}

/// A loaded handle never loads again, whatever the operations.
pub proof fn law_loaded_stays(ops: Seq<OpKind>)
    ensures
        loads_in(Hydration::Loaded, ops) == 0,
    decreases ops.len(),
{
    if ops.len() > 0 {
        law_loaded_stays(ops.drop_first());
    }
}

/// On an unloaded handle, a run that starts with a read or a write loads
/// exactly once: at its first operation.
pub proof fn law_hydrates_once(ops: Seq<OpKind>)
    requires
        ops.len() > 0,
        ops[0] != OpKind::Clear,
    ensures
        action_spec(Hydration::Unloaded, ops[0]) == StoreAction::Load,
        loads_in(Hydration::Unloaded, ops) == 1,
{
    law_loaded_stays(ops.drop_first());
}

/// The per-request handle on a server-side session.
#[derive(Debug, Clone, Copy, PartialEq, Eq, Structural)]
pub struct StoreHandle {
    pub state: Hydration,
}

impl StoreHandle {
    /// A handle that has not loaded its record yet.
    pub fn new() -> (h: StoreHandle)
        ensures
            h.state == Hydration::Unloaded,
    {
        StoreHandle { state: Hydration::Unloaded }
    }

    /// What to do next for an operation of kind `op`. A `Perform` marks the
    /// record as present, since performing loads nothing further.
    pub fn begin(&mut self, op: OpKind) -> (a: StoreAction)
        ensures
            a == action_spec(old(self).state, op),
            a == StoreAction::Perform ==> final(self).state == Hydration::Loaded,
            a != StoreAction::Perform ==> final(self).state == old(self).state,
    {
        let a = match self.state {
            Hydration::Loaded => StoreAction::Perform,
            Hydration::LoadFailed => if op == OpKind::Clear {
                StoreAction::Perform
            } else {
                StoreAction::Fail
            },
            Hydration::Unloaded => if op == OpKind::Clear {
                StoreAction::Perform
            } else {
                StoreAction::Load
            },
        };
        if a == StoreAction::Perform {
            self.state = Hydration::Loaded;
        }
        a
    }

    /// Records the outcome of a load that `begin` asked for.
    pub fn load_finished(&mut self, ok: bool)
        requires
            old(self).state == Hydration::Unloaded,
        ensures
            final(self).state == (if ok { Hydration::Loaded } else { Hydration::LoadFailed }),
    {
        self.state = if ok { Hydration::Loaded } else { Hydration::LoadFailed };
    }
}

/// Errors of either backend.
#[derive(Debug, Clone, Copy, PartialEq, Eq, Structural)]
pub enum DriverError {
    CookieMapError(CookieMapError),
    StoreError(StoreError),
}

/// One session operation.
#[derive(Debug, Clone)]
pub enum Request {
    Insert(String, SessionValue),
    Get(String, ValueKind),
    Remove(String, ValueKind),
    Clear,
}

impl Request {
    pub open spec fn kind_spec(&self) -> OpKind {
        match self {
            Request::Insert(..) => OpKind::Insert,
            Request::Get(..) => OpKind::Get,
            Request::Remove(..) => OpKind::Remove,
            Request::Clear => OpKind::Clear,
        }
    }

    pub open spec fn key_spec(&self) -> Seq<char> {
        match self {
            Request::Insert(k, _) => k@,
            Request::Get(k, _) => k@,
            Request::Remove(k, _) => k@,
            Request::Clear => Seq::empty(),
        }
    }

    /// The value stored by an insert (any value for other operations).
    pub open spec fn value_spec(&self) -> ValueModel {
        match self {
            Request::Insert(_, v) => v@,
            _ => ValueModel::Bool(false),
        }
    }

    /// The kind read by a get or remove (any kind for other operations).
    pub open spec fn read_kind_spec(&self) -> ValueKind {
        match self {
            Request::Get(_, kind) => *kind,
            Request::Remove(_, kind) => *kind,
            _ => ValueKind::Bool,
        }
    }

    /// The operation's kind.
    pub fn kind(&self) -> (k: OpKind)
        ensures
            k == self.kind_spec(),
    {
        match self {
            Request::Insert(..) => OpKind::Insert,
            Request::Get(..) => OpKind::Get,
            Request::Remove(..) => OpKind::Remove,
            Request::Clear => OpKind::Clear,
        }
    }
}

/// What a driver operation comes to.
#[derive(Debug)]
pub enum Step {
    /// The operation is over, with this result (`Ok(None)` for a write).
    Done(Result<Option<SessionValue>, DriverError>),
    /// The caller must act on the server store, then ask again or report.
    Store(StoreAction),
}

/// The view of a finished result.
pub open spec fn result_view(r: Result<Option<SessionValue>, DriverError>) -> Result<
    Option<ValueModel>,
    DriverError,
> {
    match r {
        Ok(Some(v)) => Ok(Some(v@)),
        Ok(None) => Ok(None),
        Err(e) => Err(e),
    }
}

/// A cookie-map result as a driver result.
pub open spec fn lift(r: Result<Option<ValueModel>, CookieMapError>) -> Result<
    Option<ValueModel>,
    DriverError,
> {
    match r {
        Ok(v) => Ok(v),
        Err(e) => Err(DriverError::CookieMapError(e)),
    }
}

/// What a read against the server store comes to, given the value that the
/// store gave: a value of another kind than the one asked for is a
/// serialization failure, not a value.
pub fn store_read(v: Option<SessionValue>, kind: ValueKind) -> (r: Result<Option<SessionValue>, DriverError>)
    ensures
        result_view(r) == match v {
            None => Ok::<Option<ValueModel>, DriverError>(None),
            Some(x) => if kind_of(x@) == kind {
                Ok(Some(x@))
            } else {
                Err(DriverError::StoreError(StoreError::Serialization))
            },
        },
{
    match v {
        None => Ok(None),
        Some(x) => {
            if x.kind() == kind {
                Ok(Some(x))
            } else {
                Err(DriverError::StoreError(StoreError::Serialization))
            }
        },
    }
}

/// What an operation of kind `op` under key `k` (storing `v`, or reading as
/// `kind`) does to a driver `d0`, leaving `d1` and the step `s`. On a cookie
/// map it is the map's operation, done at once; on a server store it is the
/// handle's next action.
pub open spec fn outcome_spec(
    d0: Driver,
    d1: Driver,
    op: OpKind,
    k: Seq<char>,
    v: ValueModel,
    kind: ValueKind,
    s: Step,
) -> bool {
    match (d0, d1) {
        (Driver::CookieMap(m0), Driver::CookieMap(m1)) => m1.bound() == m0.bound() && match s {
            Step::Store(_) => false,
            Step::Done(r) => match op {
                OpKind::Insert => {
                    let new_es = upsert(m0@, k, encode_spec(v));
                    if total_size(new_es) <= m0.bound() {
                        r == Ok::<Option<SessionValue>, DriverError>(None) && m1@ == new_es
                    } else {
                        r == Err::<Option<SessionValue>, DriverError>(
                            DriverError::CookieMapError(CookieMapError::TooLarge),
                        ) && m1@ == m0@
                    }
                },
                OpKind::Get => result_view(r) == lift(read_spec(m0@, k, kind)) && m1@ == m0@,
                OpKind::Remove => result_view(r) == lift(read_spec(m0@, k, kind)) && m1@ == delete(
                    m0@,
                    k,
                ),
                OpKind::Clear => r == Ok::<Option<SessionValue>, DriverError>(None) && m1@
                    == Seq::<EntryModel>::empty(),
            },
        },
        (Driver::ServerStore(h0), Driver::ServerStore(h1)) => {
            let a = action_spec(h0.state, op);
            &&& a == StoreAction::Fail ==> s == Step::Done(
                Err(DriverError::StoreError(StoreError::Hydration)),
            )
            &&& a != StoreAction::Fail ==> s == Step::Store(a)
            &&& h1.state == (if a == StoreAction::Perform {
                Hydration::Loaded
            } else {
                h0.state
            })
        },
        _ => false,
    }
}

/// The per-request session handle: one backend, chosen when the request
/// starts, for the whole request.
pub enum Driver {
    ServerStore(StoreHandle),
    CookieMap(CookieMap),
}

impl Driver {
    /// Well-formed: a cookie map keeps its own invariant.
    pub open spec fn wf(&self) -> bool {
        match self {
            Driver::CookieMap(m) => m.wf(),
            Driver::ServerStore(_) => true,
        }
    }

    /// Runs `req`. On a cookie map it is done at once, as the map's own
    /// operation; on a server store the handle says what its caller must do.
    pub fn step(&mut self, req: &Request) -> (s: Step)
        requires
            old(self).wf(),
        ensures
            final(self).wf(),
            outcome_spec(*old(self), *final(self), req.kind_spec(), req.key_spec(), req.value_spec(), req.read_kind_spec(), s),
    {
        match self {
            Driver::CookieMap(m) => {
                let r = match req {
                    Request::Insert(k, v) => match m.insert(k.as_str(), v) {
                        Ok(()) => Ok(None),
                        Err(e) => Err(DriverError::CookieMapError(e)),
                    },
                    Request::Get(k, kind) => match m.get(k.as_str(), *kind) {
                        Ok(v) => Ok(v),
                        Err(e) => Err(DriverError::CookieMapError(e)),
                    },
                    Request::Remove(k, kind) => match m.remove(k.as_str(), *kind) {
                        Ok(v) => Ok(v),
                        Err(e) => Err(DriverError::CookieMapError(e)),
                    },
                    Request::Clear => {
                        m.clear();
                        Ok(None)
                    },
                };
                Step::Done(r)
            },
            Driver::ServerStore(h) => {
                let a = h.begin(req.kind());
                if a == StoreAction::Fail {
                    Step::Done(Err(DriverError::StoreError(StoreError::Hydration)))
                } else {
                    Step::Store(a)
                }
            },
        }
    }

    /// Stores `value` under `key`.
    pub fn insert(&mut self, key: &str, value: SessionValue) -> (s: Step)
        requires
            old(self).wf(),
        ensures
            final(self).wf(),
            outcome_spec(*old(self), *final(self), OpKind::Insert, key@, value@, ValueKind::Bool, s),
    {
        self.step(&Request::Insert(key.to_owned(), value))
    }

    /// Reads the value under `key` as kind `kind`.
    pub fn get(&mut self, key: &str, kind: ValueKind) -> (s: Step)
        requires
            old(self).wf(),
        ensures
            final(self).wf(),
            outcome_spec(*old(self), *final(self), OpKind::Get, key@, ValueModel::Bool(false), kind, s),
    {
        self.step(&Request::Get(key.to_owned(), kind))
    }

    /// Removes the value under `key`, reading it as kind `kind`.
    pub fn remove(&mut self, key: &str, kind: ValueKind) -> (s: Step)
        requires
            old(self).wf(),
        ensures
            final(self).wf(),
            outcome_spec(*old(self), *final(self), OpKind::Remove, key@, ValueModel::Bool(false), kind, s),
    {
        self.step(&Request::Remove(key.to_owned(), kind))
    }

    /// Removes every value.
    pub fn clear(&mut self) -> (s: Step)
        requires
            old(self).wf(),
        ensures
            final(self).wf(),
            outcome_spec(*old(self), *final(self), OpKind::Clear, Seq::empty(), ValueModel::Bool(false), ValueKind::Bool, s),
    {
        self.step(&Request::Clear)
    }

    /// Reports the outcome of a load that `step` asked for.
    pub fn load_finished(&mut self, ok: bool)
        requires
            *old(self) == Driver::ServerStore((StoreHandle { state: Hydration::Unloaded })),
        ensures
            *final(self) == Driver::ServerStore(
                (StoreHandle { state: if ok { Hydration::Loaded } else { Hydration::LoadFailed } }),
            ),
    {
        match self {
            Driver::ServerStore(h) => h.load_finished(ok),
            Driver::CookieMap(_) => {},
        }
    }
}

} // verus!

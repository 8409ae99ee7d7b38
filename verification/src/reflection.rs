//! Filling a pool from the reflection service of a server.

use crate::dynamic::Contents;
use crate::error::Error;
use crate::loader::{
    batch, is_step, law_batches_are_finite, law_loading_comes_to_an_end,
    law_steps_are_what_they_say, law_steps_only_add, weight, BatchModel, PoolLoader, Step,
};
use crate::pool::{declares, file_header, has_name, undotted, Pool};
use crate::reply::{files_of, ReflectionReply, ReflectionRequest};
use crate::text::{append_decimal, decimal};
use crate::topology::views;
use vstd::prelude::*;

verus! {

/// Whether a service is one of those that answer questions like these.
pub open spec fn is_reflection_service(name: Seq<char>) -> bool {
    name == "grpc.reflection.v1alpha.ServerReflection"@ || name
        == "grpc.reflection.v1.ServerReflection"@
}

/// Why the services could not be listed.
pub open spec fn listing_error(message: Seq<char>, code: i32) -> Seq<char> {
    "Server reflection error listing services: "@ + message + " ("@ + decimal(code as int) + ")"@
}

/// The names of the services in the reply to [`ReflectionRequest::ListServices`].
pub fn list_services(reply: ReflectionReply) -> (r: Result<Vec<String>, Error>)
    ensures
        match reply {
            ReflectionReply::Services(names) => r is Ok && r->Ok_0@ == names@,
            ReflectionReply::Error { message, code } => r is Err && r->Err_0 is GenericError
                && r->Err_0->GenericError_0@ == listing_error(message@, code),
            _ => r is Err && r->Err_0 is GenericError && r->Err_0->GenericError_0@
                == "Expected a ListServicesResponse variant"@,
        },
        reply matches ReflectionReply::Error { message, code } ==> r->Err_0->GenericError_0@
            == "Server reflection error listing services: "@ + message@ + " ("@ + decimal(
            code as int,
        ) + ")"@,
{
    match reply {
        ReflectionReply::Services(names) => Ok(names),
        ReflectionReply::Error { message, code } => {
            let mut text: String = "Server reflection error listing services: ".to_owned();
            text.append(message.as_str());
            text.append(" (");
            append_decimal(&mut text, code);
            text.append(")");
            Err(Error::GenericError(text))
        },
        _ => Err(Error::GenericError("Expected a ListServicesResponse variant".to_owned())),
    }
}

/// The services whose files are to be loaded: all but those that answer questions like these.
pub fn services_to_load(names: Vec<String>) -> (r: Vec<String>)
    ensures
        views(r@) == views(names@).filter(|name: Seq<char>| !is_reflection_service(name)),
        views(r@) == views(names@).filter(
            |name: Seq<char>|
                name != "grpc.reflection.v1alpha.ServerReflection"@ && name
                    != "grpc.reflection.v1.ServerReflection"@,
        ),
{
    let ghost all = views(names@);
    let ghost keep = |name: Seq<char>| !is_reflection_service(name);
    let v1alpha: String = "grpc.reflection.v1alpha.ServerReflection".to_owned();
    let v1: String = "grpc.reflection.v1.ServerReflection".to_owned();
    let mut kept: Vec<String> = Vec::new();
    let mut i: usize = 0;
    while i < names.len()
        invariant
            i <= names@.len(),
            all == views(names@),
            v1alpha@ == "grpc.reflection.v1alpha.ServerReflection"@,
            v1@ == "grpc.reflection.v1.ServerReflection"@,
            keep == (|name: Seq<char>| !is_reflection_service(name)),
            views(kept@) == all.take(i as int).filter(keep),
        decreases names@.len() - i,
    {
        let ghost before = views(kept@);
        proof {
            assert(all.take(i + 1).drop_last() =~= all.take(i as int));
            assert(all.take(i + 1).last() == names@[i as int]@);
            reveal(Seq::filter);
        }
        if names[i] != v1alpha && names[i] != v1 {
            kept.push(names[i].clone());
            assert(views(kept@) =~= before.push(names@[i as int]@));
        }
        i += 1;
    }
    assert(all.take(i as int) =~= all);
    assert(keep =~= (|name: Seq<char>|
        name != "grpc.reflection.v1alpha.ServerReflection"@ && name
            != "grpc.reflection.v1.ServerReflection"@));
    kept
}

/// What the files of symbols are wanted for.
#[derive(Clone, Copy, Debug, PartialEq, Eq, Structural)]
pub enum Purpose {
    /// To have the services of a server.
    Services,
    /// To read the types that a request mentions.
    RequestTypes,
    /// To read the types that a response mentions.
    ResponseTypes,
}

/// The mathematical value of a [`Session`].
#[verifier::ext_equal]
pub struct SessionModel {
    pub purpose: Purpose,
    /// The symbols whose files are still to be had.
    pub symbols: Seq<Seq<char>>,
    /// The batches of files that are being loaded.
    pub batches: Seq<BatchModel>,
    /// The symbol whose file was asked for last, where the reply is still to come.
    pub asked: Option<Seq<char>>,
}

/// The next thing that a [`Session`] does.
pub enum Action {
    /// Nothing is left to do.
    Done,
    /// The pool has the type already.
    Known(String),
    /// The file that declares a symbol is to be asked for, and the reply to be handed to
    /// [`Session::on_reply`].
    Ask(String),
    /// A step in loading the files of a reply. For [`Step::Fetch`] a file is to be asked for, and
    /// the reply to be handed to [`Session::on_reply`].
    Load(Step),
}

/// Has the files of symbols, and what they import, loaded into a pool, one symbol after the other.
pub struct Session {
    purpose: Purpose,
    symbols: Vec<String>,
    next: usize,
    loader: PoolLoader,
    asked: Option<String>,
}

impl View for Session {
    type V = SessionModel;

    closed spec fn view(&self) -> SessionModel {
        SessionModel {
            purpose: self.purpose,
            symbols: views(self.symbols@).skip(self.next as int),
            batches: self.loader@,
            asked: match self.asked {
                Some(symbol) => Some(symbol@),
                None => None,
            },
        }
    }
}

/// Whether the file of the next symbol is not needed: a type that the pool has.
pub open spec fn is_known(session: SessionModel, pool: Seq<Contents>) -> bool {
    session.purpose != Purpose::Services && declares(pool, undotted(session.symbols[0]))
}

/// Whether an action takes a session and a pool from one state to another.
pub open spec fn is_action(
    before: SessionModel,
    pool_before: Seq<Contents>,
    action: Action,
    after: SessionModel,
    pool_after: Seq<Contents>,
) -> bool {
    match action {
        Action::Load(step) => {
            &&& before.batches.len() > 0
            &&& is_step(before.batches, pool_before, step, after.batches, pool_after)
            &&& after == (SessionModel { batches: after.batches, asked: None, ..before })
        },
        Action::Known(name) => {
            &&& before.batches.len() == 0 && before.symbols.len() > 0
            &&& name@ == before.symbols[0] && is_known(before, pool_before)
            &&& after == (SessionModel { symbols: before.symbols.skip(1), asked: None, ..before })
            &&& pool_after == pool_before
        },
        Action::Ask(name) => {
            &&& before.batches.len() == 0 && before.symbols.len() > 0
            &&& name@ == before.symbols[0] && !is_known(before, pool_before)
            &&& after == (SessionModel {
                symbols: before.symbols.skip(1),
                asked: Some(name@),
                ..before
            })
            &&& pool_after == pool_before
        },
        Action::Done => {
            &&& before.batches.len() == 0 && before.symbols.len() == 0
            &&& after == (SessionModel { asked: None, ..before })
            &&& pool_after == pool_before
        },
    }
}

/// Why the file of a type could not be asked for.
pub open spec fn sending_error(purpose: Purpose, symbol: Seq<char>, cause: Seq<char>) -> Seq<char> {
    match purpose {
        Purpose::ResponseTypes => "Error sending reflection request for response @type \""@ + symbol
            + "\": "@ + cause,
        _ => "Error sending reflection request for @type \""@ + symbol + "\": "@ + cause,
    }
}

impl Session {
    pub closed spec fn wf(&self) -> bool {
        self.loader.wf() && self.next <= self.symbols@.len()
    }

    /// A session that has the files of all symbols loaded.
    pub fn new(purpose: Purpose, symbols: Vec<String>) -> (r: Session)
        ensures
            r.wf(),
            r@ == (SessionModel {
                purpose,
                symbols: views(symbols@),
                batches: Seq::empty(),
                asked: None,
            }),
    {
        let r = Session { purpose, symbols, next: 0, loader: PoolLoader::idle(), asked: None };
        assert(r@.symbols =~= views(symbols@));
        r
    }

    /// Does the next thing: as long as files are being loaded it goes on with them, and then with
    /// the next symbol.
    pub fn advance(&mut self, pool: &mut Pool) -> (r: Action)
        requires
            old(self).wf(),
            old(pool).wf(),
        ensures
            final(self).wf(),
            final(pool).wf(),
            is_action(old(self)@, old(pool)@, r, final(self)@, final(pool)@),
            r is Load <==> old(self)@.batches.len() > 0,
            r is Done <==> old(self)@.batches.len() == 0 && old(self)@.symbols.len() == 0,
            r matches Action::Known(name) ==> name@ == old(self)@.symbols[0]
                && old(self)@.purpose != Purpose::Services && declares(
                old(pool)@,
                undotted(name@),
            ),
            r matches Action::Ask(name) ==> name@ == old(self)@.symbols[0] && (old(self)@.purpose
                == Purpose::Services || !declares(old(pool)@, undotted(name@))),
            final(self)@.purpose == old(self)@.purpose,
            final(self)@.symbols == if r is Known || r is Ask {
                old(self)@.symbols.skip(1)
            } else {
                old(self)@.symbols
            },
            final(self)@.asked == match r {
                Action::Ask(name) => Some(name@),
                _ => None,
            },
            r is Load || final(pool)@ == old(pool)@,
    {
        self.asked = None;
        if !self.loader.is_idle() {
            let step: Step = self.loader.step(pool);
            return Action::Load(step);
        }
        if self.next >= self.symbols.len() {
            return Action::Done;
        }
        let symbol: String = self.symbols[self.next].clone();
        self.next = self.next + 1;
        proof {
            assert(symbol@ == old(self)@.symbols[0]);
            assert(self@.symbols =~= old(self)@.symbols.skip(1));
        }
        if self.purpose != Purpose::Services && pool.has_message(symbol.as_str()) {
            return Action::Known(symbol);
        }
        self.asked = Some(symbol.clone());
        Action::Ask(symbol)
    }

    /// Goes on until something is to be asked for, and says what; or to the end, where nothing is
    /// left to do. The reply is to be handed to [`Session::on_reply`].
    pub fn next_request(&mut self, pool: &mut Pool) -> (r: Option<ReflectionRequest>)
        requires
            old(self).wf(),
            old(pool).wf(),
        ensures
            final(self).wf(),
            final(pool).wf(),
            exists|run: Seq<SessionState>, action: Action|
                {
                    &&& #[trigger] is_quiet_run(run, old(self)@, old(pool)@)
                    &&& #[trigger] is_action(
                        run.last().session,
                        run.last().pool,
                        action,
                        final(self)@,
                        final(pool)@,
                    )
                    &&& match r {
                        Some(request) => asks(action, request),
                        None => action is Done,
                    }
                },
            old(pool)@.is_prefix_of(final(pool)@),
            final(self)@.purpose == old(self)@.purpose,
            match r {
                Some(ReflectionRequest::FileContainingSymbol(name)) => {
                    &&& final(self)@.asked == Some(name@)
                    &&& final(self)@.batches.len() == 0
                    &&& old(self)@.purpose == Purpose::Services || !declares(
                        final(pool)@,
                        undotted(name@),
                    )
                    &&& final(self)@.symbols.len() < old(self)@.symbols.len()
                    &&& name@ == old(self)@.symbols[old(self)@.symbols.len()
                        - final(self)@.symbols.len() - 1]
                    &&& all_known_but(old(self)@, final(self)@, final(pool)@, 1)
                },
                Some(ReflectionRequest::FileByFilename(name)) => {
                    &&& final(self)@.asked is None
                    &&& final(self)@.batches.len() > 0
                    &&& !has_name(final(pool)@, name@)
                    &&& all_known_but(old(self)@, final(self)@, final(pool)@, 0)
                },
                Some(ReflectionRequest::ListServices) => false,
                None => {
                    &&& final(self)@.asked is None
                    &&& final(self)@.batches.len() == 0 && final(self)@.symbols.len() == 0
                    &&& all_known_but(old(self)@, final(self)@, final(pool)@, 0)
                },
            },
    {
        let ghost mut run = seq![SessionState { session: self@, pool: pool@ }];
        assert(self@.symbols =~= old(self)@.symbols.skip(0));
        loop
            invariant
                self.wf(),
                pool.wf(),
                is_quiet_run(run, old(self)@, old(pool)@),
                run.last() == (SessionState { session: self@, pool: pool@ }),
                old(pool)@.is_prefix_of(pool@),
                self@.purpose == old(self)@.purpose,
                all_known_but(old(self)@, self@, pool@, 0),
            decreases self@.symbols.len(), weight(self@.batches),
        {
            let ghost before = SessionState { session: self@, pool: pool@ };
            proof {
                if self@.batches.len() > 0 {
                    law_batches_are_finite(self.loader, self@.batches.len() - 1);
                }
            }
            let action: Action = self.advance(pool);
            assert(is_action(run.last().session, run.last().pool, action, self@, pool@));
            proof {
                lemma_known_types_stay_known(
                    old(self)@,
                    before.session,
                    before.pool,
                    action,
                    self@,
                    pool@,
                );
            }
            if let Action::Done = action {
                return None;
            }
            if let Some(request) = request_for(&action) {
                assert(asks(action, request));
                return Some(request);
            }
            proof {
                let after = SessionState { session: self@, pool: pool@ };
                if let Action::Load(step) = action {
                    law_loading_comes_to_an_end(
                        before.session.batches,
                        before.pool,
                        step,
                        after.session.batches,
                        after.pool,
                    );
                }
                assert(is_quiet(before, action, after));
                let more = run.push(after);
                assert forall|i: int| 0 <= i < more.len() - 1 implies #[trigger] goes_on_at(
                    more,
                    i,
                ) by {
                    if i < run.len() - 1 {
                        assert(goes_on_at(run, i));
                        let quiet = choose|action: Action| #[trigger]
                            is_quiet(run[i], action, run[i + 1]);
                        assert(is_quiet(more[i], quiet, more[i + 1]));
                    } else {
                        assert(is_quiet(more[i], action, more[i + 1]));
                    }
                }
                run = more;
            }
        }
    }

    /// Takes the reply to the request that [`Session::advance`] asked for, or the cause in words
    /// where there was none. Encoded files are loaded next; any other reply is passed over.
    ///
    /// Where the file of a type was asked for and there was no reply, the session has failed.
    pub fn on_reply(&mut self, reply: Result<ReflectionReply, String>) -> (r: Result<(), Error>)
        requires
            old(self).wf(),
        ensures
            final(self).wf(),
            match (reply, old(self)@.asked) {
                (Err(cause), Some(symbol)) if old(self)@.purpose != Purpose::Services => r is Err
                    && r->Err_0 is GenericError && r->Err_0->GenericError_0@ == sending_error(
                    old(self)@.purpose,
                    symbol,
                    cause@,
                ),
                _ => r is Ok,
            },
            final(self)@ == (SessionModel {
                asked: None,
                batches: match files_of(reply_of(reply)) {
                    Some(files) => old(self)@.batches.push(batch(files)),
                    None => old(self)@.batches,
                },
                ..old(self)@
            }),
            r is Err <==> reply is Err && old(self)@.asked is Some && old(self)@.purpose
                != Purpose::Services,
            r is Err ==> r->Err_0->GenericError_0@ == (if old(self)@.purpose
                == Purpose::ResponseTypes {
                "Error sending reflection request for response @type \""@
            } else {
                "Error sending reflection request for @type \""@
            }) + old(self)@.asked->0 + "\": "@ + reply->Err_0@,
            reply matches Ok(ReflectionReply::FileDescriptors(files)) ==> {
                &&& final(self)@.batches.len() == old(self)@.batches.len() + 1
                &&& final(self)@.batches.drop_last() == old(self)@.batches
                &&& forall|i: int|
                    0 <= i < files@.len() && file_header((#[trigger] files@[i])@) is Some
                        ==> final(self)@.batches.last().files.contains_key(
                        file_header(files@[i]@)->0.name,
                    )
            },
            !(reply matches Ok(ReflectionReply::FileDescriptors(_))) ==> final(self)@.batches
                == old(self)@.batches,
    {
        let asked: Option<String> = self.asked.take();
        match reply {
            Ok(reply) => {
                self.loader.on_reply(Some(reply));
                Ok(())
            },
            Err(cause) => {
                if self.purpose == Purpose::Services {
                    return Ok(());
                }
                match asked {
                    None => Ok(()),
                    Some(symbol) => {
                        let mut text: String = if self.purpose == Purpose::ResponseTypes {
                            "Error sending reflection request for response @type \"".to_owned()
                        } else {
                            "Error sending reflection request for @type \"".to_owned()
                        };
                        text.append(symbol.as_str());
                        text.append("\": ");
                        text.append(cause.as_str());
                        Err(Error::GenericError(text))
                    },
                }
            },
        }
    }
}

/// Whether the symbols that a session has done with since an earlier time, but for the last of them,
/// are types that the pool has.
pub open spec fn all_known_but(
    earlier: SessionModel,
    now: SessionModel,
    pool: Seq<Contents>,
    last: int,
) -> bool {
    let done = earlier.symbols.len() - now.symbols.len();
    &&& done >= 0 && now.symbols == earlier.symbols.skip(done)
    &&& done > last ==> earlier.purpose != Purpose::Services
    &&& forall|k: int|
        0 <= k < done - last ==> declares(pool, undotted(#[trigger] earlier.symbols[k]))
}

/// After an action the symbols that were done with before it still are types that the pool has, and
/// so is one that is passed over.
proof fn lemma_known_types_stay_known(
    start: SessionModel,
    before: SessionModel,
    pool_before: Seq<Contents>,
    action: Action,
    after: SessionModel,
    pool_after: Seq<Contents>,
)
    requires
        all_known_but(start, before, pool_before, 0),
        before.purpose == start.purpose,
        is_action(before, pool_before, action, after, pool_after),
    ensures
        pool_before.is_prefix_of(pool_after),
        all_known_but(
            start,
            after,
            pool_after,
            if action is Ask {
                1
            } else {
                0
            },
        ),
        action matches Action::Load(Step::Fetch(name)) ==> after.batches.len() > 0 && !has_name(
            pool_after,
            name@,
        ),
{
    law_sessions_only_add(before, pool_before, action, after, pool_after);
    if let Action::Load(step) = action {
        law_steps_are_what_they_say(before.batches, pool_before, step, after.batches, pool_after);
    }
    let known = start.symbols.len() - before.symbols.len();
    let done = start.symbols.len() - after.symbols.len();
    let last: int = if action is Ask {
        1
    } else {
        0
    };
    assert(before.symbols == start.symbols.skip(known));
    if action is Known || action is Ask {
        assert(done == known + 1);
        assert(before.symbols[0] == start.symbols[known]);
        assert(before.symbols.skip(1) =~= start.symbols.skip(done));
    }
    assert(after.symbols == start.symbols.skip(done));
    assert forall|k: int| 0 <= k < done - last implies declares(
        pool_after,
        undotted(#[trigger] start.symbols[k]),
    ) by {
        if k < known {
            assert(declares(pool_before, undotted(start.symbols[k])));
        }
    }
}

/// A pool keeps its files through a session, in their order, and with them all messages.
pub proof fn law_sessions_only_add(
    before: SessionModel,
    pool_before: Seq<Contents>,
    action: Action,
    after: SessionModel,
    pool_after: Seq<Contents>,
)
    requires
        is_action(before, pool_before, action, after, pool_after),
    ensures
        pool_before.is_prefix_of(pool_after),
        forall|name: Seq<char>| has_name(pool_before, name) ==> #[trigger] has_name(
            pool_after,
            name,
        ),
        forall|full: Seq<char>| declares(pool_before, full) ==> #[trigger] declares(
            pool_after,
            full,
        ),
{
    if let Action::Load(step) = action {
        law_steps_only_add(before.batches, pool_before, step, after.batches, pool_after);
    }
}

/// No type that the pool has is asked for.
pub proof fn law_known_types_are_not_asked_for(
    before: SessionModel,
    pool_before: Seq<Contents>,
    name: String,
    after: SessionModel,
    pool_after: Seq<Contents>,
)
    requires
        is_action(before, pool_before, Action::Ask(name), after, pool_after),
        before.purpose != Purpose::Services,
    ensures
        !declares(pool_before, undotted(name@)),
{
}

/// The reply, if there was one.
pub open spec fn reply_of(reply: Result<ReflectionReply, String>) -> Option<ReflectionReply> {
    match reply {
        Ok(reply) => Some(reply),
        Err(_) => None,
    }
}

/// A session and the pool that it fills.
pub struct SessionState {
    pub session: SessionModel,
    pub pool: Seq<Contents>,
}

/// Whether an action that asks for nothing, and is not the end, takes one state to another.
pub open spec fn is_quiet(before: SessionState, action: Action, after: SessionState) -> bool {
    &&& is_action(before.session, before.pool, action, after.session, after.pool)
    &&& !(action is Done) && !(action is Ask) && !(action is Load && action->Load_0 is Fetch)
}

/// Whether a run goes on from a state by an action that asks for nothing.
pub open spec fn goes_on_at(run: Seq<SessionState>, i: int) -> bool {
    exists|action: Action| #[trigger] is_quiet(run[i], action, run[i + 1])
}

/// Whether a run starts at a state and goes on by actions that ask for nothing.
pub open spec fn is_quiet_run(
    run: Seq<SessionState>,
    session: SessionModel,
    pool: Seq<Contents>,
) -> bool {
    &&& run.len() > 0
    &&& run[0] == (SessionState { session, pool })
    &&& forall|i: int| 0 <= i < run.len() - 1 ==> #[trigger] goes_on_at(run, i)
}

/// Whether an action asks for something by a request.
pub open spec fn asks(action: Action, request: ReflectionRequest) -> bool {
    match (action, request) {
        (Action::Ask(symbol), ReflectionRequest::FileContainingSymbol(name)) => name@ == symbol@,
        (Action::Load(Step::Fetch(file)), ReflectionRequest::FileByFilename(name)) => name@
            == file@,
        _ => false,
    }
}

/// What is to be asked for an action.
pub fn request_for(action: &Action) -> (r: Option<ReflectionRequest>)
    ensures
        match r {
            Some(request) => asks(*action, request),
            None => !(action is Ask) && !(action is Load && action->Load_0 is Fetch),
        },
        match (*action, r) {
            (Action::Ask(symbol), Some(ReflectionRequest::FileContainingSymbol(name))) => name@
                == symbol@,
            (
                Action::Load(Step::Fetch(file)),
                Some(ReflectionRequest::FileByFilename(name)),
            ) => name@ == file@,
            (_, Some(_)) => false,
            (_, None) => !(action is Ask) && !(action is Load && action->Load_0 is Fetch),
        },
{
    match action {
        Action::Ask(symbol) => Some(ReflectionRequest::FileContainingSymbol(symbol.clone())),
        Action::Load(Step::Fetch(file)) => Some(ReflectionRequest::FileByFilename(file.clone())),
        _ => None,
    }
}

/// A type is passed over only where the pool has that very type, and asked for only where the pool
/// does not have it; the files of services are asked for in any case. The symbols are taken one by
/// one, in their order, and only once no files are left to be loaded. Nothing is done where none is
/// left.
pub proof fn law_actions_are_what_they_say(
    before: SessionModel,
    pool_before: Seq<Contents>,
    action: Action,
    after: SessionModel,
    pool_after: Seq<Contents>,
)
    requires
        is_action(before, pool_before, action, after, pool_after),
    ensures
        action is Load <==> before.batches.len() > 0,
        action is Done <==> before.batches.len() == 0 && before.symbols.len() == 0,
        action matches Action::Known(name) ==> name@ == before.symbols[0] && before.purpose
            != Purpose::Services && declares(pool_before, undotted(name@)),
        action matches Action::Ask(name) ==> name@ == before.symbols[0] && (before.purpose
            == Purpose::Services || !declares(pool_before, undotted(name@))),
        action is Known || action is Ask ==> before.symbols.len() == after.symbols.len() + 1
            && forall|k: int|
            0 <= k < after.symbols.len() ==> #[trigger] after.symbols[k] == before.symbols[k + 1],
        action is Load || action is Done ==> after.symbols == before.symbols,
        action is Load || pool_after == pool_before && after.batches == before.batches,
        after.asked == match action {
            Action::Ask(name) => Some(name@),
            _ => None,
        },
        after.purpose == before.purpose,
{
}

/// An action asks for something exactly if it says that a symbol is to be asked for, or a file is;
/// and it asks by the name of that.
pub proof fn law_requests_are_for_what_is_wanted(action: Action, request: ReflectionRequest)
    ensures
        asks(action, request) <==> {
            ||| exists|symbol: String, name: String|
                action == Action::Ask(symbol) && #[trigger] symbol@ == #[trigger] name@ && request
                    == ReflectionRequest::FileContainingSymbol(name)
            ||| exists|file: String, name: String|
                action == Action::Load(Step::Fetch(file)) && #[trigger] file@ == #[trigger] name@
                    && request == ReflectionRequest::FileByFilename(name)
        },
{
}

/// Of a file that could not be asked for, it is told for what symbol, and why; and whether it was for
/// a response.
pub proof fn law_a_failed_request_is_told_with_its_symbol_and_its_cause(
    purpose: Purpose,
    symbol: Seq<char>,
    cause: Seq<char>,
)
    ensures
        purpose == Purpose::ResponseTypes ==> sending_error(purpose, symbol, cause)
            == "Error sending reflection request for response @type \""@ + symbol + "\": "@ + cause,
        purpose != Purpose::ResponseTypes ==> sending_error(purpose, symbol, cause)
            == "Error sending reflection request for @type \""@ + symbol + "\": "@ + cause,
{
}

/// A service is loaded exactly if the server lists it and it is neither of the two that answer
/// questions like these.
pub proof fn law_all_other_services_are_loaded(names: Seq<Seq<char>>, name: Seq<char>)
    ensures
        names.filter(|name: Seq<char>| !is_reflection_service(name)).contains(name) <==> names.contains(
            name,
        ) && name != "grpc.reflection.v1alpha.ServerReflection"@ && name
            != "grpc.reflection.v1.ServerReflection"@,
{
    let keep = |name: Seq<char>| !is_reflection_service(name);
    broadcast use vstd::seq_lib::group_filter_ensures;

    if names.contains(name) && keep(name) {
        let i = choose|i: int| 0 <= i < names.len() && names[i] == name;
        assert(names.filter(keep).contains(names[i]));
    }
    if names.filter(keep).contains(name) {
        let kept = names.filter(keep);
        let j = choose|j: int| 0 <= j < kept.len() && kept[j] == name;
        assert(keep(kept[j]));
        names.lemma_filter_contains_rev(keep, name);
    }
}

} // verus!

//! The rendezvous of callers that miss the same key at the same time.
//!
//! A caller that finds no value for a key announces that it is about to
//! compute one.  The first to announce is told to evaluate its function;
//! whoever announces for the same key hash before the first has finished is
//! told to wait for it, and then to look into the cache again.  When the
//! first finishes, with a value or with an error, the next miss starts a
//! new round.
//!
//! If the first fails while others wait for it, its error is kept until
//! the last of them has taken it: whoever waited for a round that failed
//! returns the error of that round.
//!
//! This module decides who evaluates, who waits, and what a caller that
//! waited returns.  How a waiting caller is put to sleep and woken up is
//! left to the caller.

use vstd::prelude::*;
use std::collections::HashMap;
use std::sync::Arc;

verus! {

/// What a caller that announced itself is to do.
#[derive(Clone, Copy, PartialEq, Eq, Debug)]
pub enum InitTurn {
    /// Evaluate the function, then finish with this ticket.
    Evaluate(u64),
    /// Wait until the holder of this ticket has finished.
    Wait(u64),
}

/// What a caller that looked for a value is to do.
pub enum Entered<V> {
    /// The value was found.
    Found(V),
    /// No value was found, and the caller has announced itself.
    Turn(InitTurn),
}

/// The keys that are being initialized, by hash, each with the ticket of
/// the caller that evaluates; the number of callers that wait for each
/// ticket; and the errors of the rounds that failed, by ticket, for the
/// callers that still wait for them.
pub struct ValueInitializer<E> {
    waiters: HashMap<u64, u64>,
    waiting: HashMap<u64, usize>,
    failures: HashMap<u64, Arc<E>>,
    next_ticket: u64,
}

/// The state of the rounds of initialization.
pub struct Rounds<E> {
    /// The ticket of the caller that evaluates, by key hash.
    pub evaluating: Map<u64, u64>,
    /// The number of callers that wait, by ticket, where it is not zero.
    pub waiting: Map<u64, usize>,
    /// The error of a failed round, by ticket.
    pub failures: Map<u64, Arc<E>>,
    /// The ticket that the next evaluating caller receives.
    pub next_ticket: u64,
}

/// The ticket after `ticket`.
pub open spec fn following(ticket: u64) -> u64 {
    if ticket == u64::MAX {
        0
    } else {
        (ticket + 1) as u64
    }
}

/// How many callers wait for `ticket`.
pub open spec fn waiting_for(waiting: Map<u64, usize>, ticket: u64) -> nat {
    if waiting.contains_key(ticket) {
        waiting[ticket] as nat
    } else {
        0
    }
}

/// The numbers of waiting callers after a caller was told `turn`: one more
/// waits for the ticket it was told to wait for, as far as can be counted.
pub open spec fn joined(waiting: Map<u64, usize>, turn: InitTurn) -> Map<u64, usize> {
    match turn {
        InitTurn::Wait(ticket) => if waiting_for(waiting, ticket) < usize::MAX {
            waiting.insert(ticket, (waiting_for(waiting, ticket) + 1) as usize)
        } else {
            waiting
        },
        InitTurn::Evaluate(_) => waiting,
    }
}

/// The errors kept after the round of `ticket` failed with `error`: the
/// error is kept if somebody waits for the ticket.
pub open spec fn noted<E>(
    waiting: Map<u64, usize>,
    failures: Map<u64, Arc<E>>,
    ticket: u64,
    error: Arc<E>,
) -> Map<u64, Arc<E>> {
    if waiting_for(waiting, ticket) > 0 {
        failures.insert(ticket, error)
    } else {
        failures
    }
}

/// The numbers of waiting callers after one stopped waiting for `ticket`.
pub open spec fn parted(waiting: Map<u64, usize>, ticket: u64) -> Map<u64, usize> {
    if waiting_for(waiting, ticket) > 1 {
        waiting.insert(ticket, (waiting_for(waiting, ticket) - 1) as usize)
    } else {
        waiting.remove(ticket)
    }
}

/// The errors kept after one caller stopped waiting for `ticket`: the
/// error of the ticket goes with the last that waited for it.
pub open spec fn cleared<E>(
    waiting: Map<u64, usize>,
    failures: Map<u64, Arc<E>>,
    ticket: u64,
) -> Map<u64, Arc<E>> {
    if waiting_for(waiting, ticket) > 1 {
        failures
    } else {
        failures.remove(ticket)
    }
}

/// What a caller that waited for `ticket` returns: the error of the round,
/// if it failed, and nothing otherwise.
pub open spec fn told<E>(failures: Map<u64, Arc<E>>, ticket: u64) -> Option<Arc<E>> {
    if failures.contains_key(ticket) {
        Some(failures[ticket])
    } else {
        None
    }
}

/// Whether each of the next `n` callers that stop waiting for `ticket`
/// returns `error`.
pub open spec fn all_told<E>(
    waiting: Map<u64, usize>,
    failures: Map<u64, Arc<E>>,
    ticket: u64,
    error: Arc<E>,
    n: nat,
) -> bool
    decreases n,
{
    n == 0 || (told(failures, ticket) == Some(error) && all_told(
        parted(waiting, ticket),
        cleared(waiting, failures, ticket),
        ticket,
        error,
        (n - 1) as nat,
    ))
}

impl<E> Rounds<E> {
    /// No round is going on, nobody waits, and no error is kept.
    pub open spec fn idle(next_ticket: u64) -> Rounds<E> {
        Rounds {
            evaluating: Map::empty(),
            waiting: Map::empty(),
            failures: Map::empty(),
            next_ticket,
        }
    }

    /// The state after a caller announced itself for `hash`, and what the
    /// caller is told.
    pub open spec fn announced(self, hash: u64) -> (Rounds<E>, InitTurn) {
        let (evaluating, turn) = announced(self.evaluating, hash, self.next_ticket);
        (
            Rounds {
                evaluating,
                waiting: joined(self.waiting, turn),
                failures: self.failures,
                next_ticket: if turn is Evaluate {
                    following(self.next_ticket)
                } else {
                    self.next_ticket
                },
            },
            turn,
        )
    }

    /// The state after the holder of `ticket` finished the round of `hash`
    /// with a value.
    pub open spec fn finished(self, hash: u64, ticket: u64) -> Rounds<E> {
        Rounds { evaluating: finished(self.evaluating, hash, ticket), ..self }
    }

    /// The state after the holder of `ticket` finished the round of `hash`
    /// with `error`.
    pub open spec fn failed(self, hash: u64, ticket: u64, error: Arc<E>) -> Rounds<E> {
        Rounds {
            evaluating: finished(self.evaluating, hash, ticket),
            failures: noted(self.waiting, self.failures, ticket, error),
            ..self
        }
    }

    /// The state after a caller stopped waiting for `ticket`, and what the
    /// caller returns.
    pub open spec fn left(self, ticket: u64) -> (Rounds<E>, Option<Arc<E>>) {
        (
            Rounds {
                waiting: parted(self.waiting, ticket),
                failures: cleared(self.waiting, self.failures, ticket),
                ..self
            },
            told(self.failures, ticket),
        )
    }
}

/// `Arc::clone`: another handle to the same value.
#[verifier::external_body]
pub(crate) fn share_error<E>(error: &Arc<E>) -> (r: Arc<E>)
    ensures
        r == *error,
{
    Arc::clone(error)
}

/// The waiters after a caller announced itself for `hash`, and what the
/// caller is told.
pub open spec fn announced(waiters: Map<u64, u64>, hash: u64, ticket: u64) -> (
    Map<u64, u64>,
    InitTurn,
) {
    if waiters.contains_key(hash) {
        (waiters, InitTurn::Wait(waiters[hash]))
    } else {
        (waiters.insert(hash, ticket), InitTurn::Evaluate(ticket))
    }
}

/// The waiters after the holder of `ticket` finished for `hash`.
pub open spec fn finished(waiters: Map<u64, u64>, hash: u64, ticket: u64) -> Map<u64, u64> {
    if waiters.contains_key(hash) && waiters[hash] == ticket {
        waiters.remove(hash)
    } else {
        waiters
    }
}

/// How many of the callers that announce themselves for `hash` one after
/// another, with the tickets `tickets`, are told to evaluate.
pub open spec fn evaluations(waiters: Map<u64, u64>, hash: u64, tickets: Seq<u64>) -> nat
    decreases tickets.len(),
{
    if tickets.len() == 0 {
        0
    } else {
        let (next, turn) = announced(waiters, hash, tickets[0]);
        (if turn is Evaluate {
            1nat
        } else {
            0nat
        }) + evaluations(next, hash, tickets.drop_first())
    }
}

impl<E> View for ValueInitializer<E> {
    type V = Map<u64, u64>;

    open spec fn view(&self) -> Map<u64, u64> {
        self.rounds().evaluating
    }
}

impl<E> ValueInitializer<E> {
    /// The state of the rounds.
    pub closed spec fn rounds(&self) -> Rounds<E> {
        Rounds {
            evaluating: self.waiters@,
            waiting: self.waiting@,
            failures: self.failures@,
            next_ticket: self.next_ticket,
        }
    }

    /// The ticket that the next evaluating caller receives.
    pub open spec fn next_ticket(&self) -> u64 {
        self.rounds().next_ticket
    }

    /// How many callers wait for `ticket`.
    pub open spec fn count(&self, ticket: u64) -> nat {
        waiting_for(self.rounds().waiting, ticket)
    }

    /// The errors of the failed rounds that somebody still waits for.
    pub open spec fn failures(&self) -> Map<u64, Arc<E>> {
        self.rounds().failures
    }

    /// An initializer with no key in the making.
    pub fn new() -> (v: Self)
        ensures
            v.rounds() == Rounds::<E>::idle(0),
            v@ == Map::<u64, u64>::empty(),
    {
        ValueInitializer {
            waiters: HashMap::new(),
            waiting: HashMap::new(),
            failures: HashMap::new(),
            next_ticket: 0,
        }
    }

    /// Announces a caller that wants to initialize the key of `hash`.
    ///
    /// If nobody is evaluating for the hash, the caller is told to
    /// evaluate and given a new ticket.  Otherwise it is told to wait for
    /// the ticket of the caller that evaluates, and counted among those
    /// that wait for it.
    pub fn begin(&mut self, hash: u64) -> (turn: InitTurn)
        ensures
            (final(self).rounds(), turn) == old(self).rounds().announced(hash),
            (final(self)@, turn) == announced(old(self)@, hash, old(self).next_ticket()),
    {
        let current: Option<u64> = match self.waiters.get(&hash) {
            Some(t) => Some(*t),
            None => None,
        };
        match current {
            Some(t) => {
                let n: usize = self.waiting_count(t);
                if n < usize::MAX {
                    self.waiting.insert(t, n + 1);
                }
                InitTurn::Wait(t)
            },
            None => {
                let ticket: u64 = self.next_ticket;
                self.next_ticket = if ticket == u64::MAX {
                    0
                } else {
                    ticket + 1
                };
                self.waiters.insert(hash, ticket);
                InitTurn::Evaluate(ticket)
            },
        }
    }

    /// The number of callers that wait for `ticket`.
    pub fn waiting_count(&self, ticket: u64) -> (n: usize)
        ensures
            n == self.count(ticket),
    {
        match self.waiting.get(&ticket) {
            Some(n) => *n,
            None => 0,
        }
    }

    /// Ends the round of `hash` that the holder of `ticket` evaluated to a
    /// value, and says whether there was such a round.
    pub fn finish(&mut self, hash: u64, ticket: u64) -> (done: bool)
        ensures
            done == (old(self)@.contains_key(hash) && old(self)@[hash] == ticket),
            final(self).rounds() == old(self).rounds().finished(hash, ticket),
            final(self)@ == finished(old(self)@, hash, ticket),
    {
        let current: Option<u64> = match self.waiters.get(&hash) {
            Some(t) => Some(*t),
            None => None,
        };
        match current {
            Some(t) => {
                if t == ticket {
                    self.waiters.remove(&hash);
                    true
                } else {
                    false
                }
            },
            None => false,
        }
    }

    /// Ends the round of `hash` that the holder of `ticket` evaluated to
    /// `error`, and keeps the error for the callers that wait for the
    /// ticket, if there are any.
    pub fn finish_failed(&mut self, hash: u64, ticket: u64, error: Arc<E>)
        ensures
            final(self).rounds() == old(self).rounds().failed(hash, ticket, error),
            final(self)@ == finished(old(self)@, hash, ticket),
            final(self).failures() == (if old(self).count(ticket) > 0 {
                old(self).failures().insert(ticket, error)
            } else {
                old(self).failures()
            }),
    {
        if self.waiting_count(ticket) > 0 {
            self.failures.insert(ticket, error);
        }
        self.finish(hash, ticket);
    }

    /// Takes a caller that waited for `ticket` off the count, and says
    /// what it returns: the error of the round, if it failed.  A caller
    /// that is told nothing looks for the value again.
    pub fn leave(&mut self, ticket: u64) -> (r: Option<Arc<E>>)
        ensures
            (final(self).rounds(), r) == old(self).rounds().left(ticket),
            r == told(old(self).failures(), ticket),
            final(self).count(ticket) == (if old(self).count(ticket) > 0 {
                old(self).count(ticket) - 1
            } else {
                0
            }),
    {
        let r: Option<Arc<E>> = match self.failures.get(&ticket) {
            Some(e) => Some(share_error(e)),
            None => None,
        };
        let n: usize = self.waiting_count(ticket);
        if n > 1 {
            self.waiting.insert(ticket, n - 1);
        } else {
            self.waiting.remove(&ticket);
            self.failures.remove(&ticket);
        }
        r
    }

    /// Whether the round of `hash` that the holder of `ticket` evaluates is
    /// still going on.
    pub fn is_pending(&self, hash: u64, ticket: u64) -> (pending: bool)
        ensures
            pending == (self@.contains_key(hash) && self@[hash] == ticket),
    {
        match self.waiters.get(&hash) {
            Some(t) => *t == ticket,
            None => false,
        }
    }

    /// Whether no key is in the making.
    pub fn is_idle(&self) -> (idle: bool)
        ensures
            idle == (self@.len() == 0),
    {
        self.waiters.len() == 0
    }
}

/// Of any number of callers that announce themselves for the same key
/// hash while no round of it has finished, exactly one is told to
/// evaluate: the first, if no round was going on before, and none
/// otherwise.
pub proof fn law_single_flight(waiters: Map<u64, u64>, hash: u64, tickets: Seq<u64>)
    ensures
        evaluations(waiters, hash, tickets) == (if tickets.len() > 0 && !waiters.contains_key(
            hash,
        ) {
            1nat
        } else {
            0nat
        }),
    decreases tickets.len(),
{
    if tickets.len() > 0 {
        let (next, turn) = announced(waiters, hash, tickets[0]);
        assert(next.contains_key(hash));
        law_single_flight(next, hash, tickets.drop_first());
    }
}

/// A caller that is told to wait is given the ticket of the caller that
/// evaluates, and the round goes on until that ticket finishes.
pub proof fn law_waiters_share_ticket(waiters: Map<u64, u64>, hash: u64, first: u64, second: u64)
    requires
        !waiters.contains_key(hash),
    ensures
        announced(waiters, hash, first).1 == InitTurn::Evaluate(first),
        announced(announced(waiters, hash, first).0, hash, second).1 == InitTurn::Wait(first),
        announced(announced(waiters, hash, first).0, hash, second).0 == announced(
            waiters,
            hash,
            first,
        ).0,
{
}

/// After a round has finished, whether its function returned a value or
/// failed, the next caller that announces itself for the key evaluates
/// again.
pub proof fn law_reentry(waiters: Map<u64, u64>, hash: u64, first: u64, second: u64)
    requires
        !waiters.contains_key(hash),
    ensures
        finished(announced(waiters, hash, first).0, hash, first) == waiters,
        announced(finished(announced(waiters, hash, first).0, hash, first), hash, second).1
            == InitTurn::Evaluate(second),
{
    assert(finished(announced(waiters, hash, first).0, hash, first) =~= waiters);
}

/// Whoever waited for a round that failed returns the error of that
/// round: if `n` callers wait for a ticket when its round fails, each of
/// the next `n` that stop waiting is told its error.
pub proof fn law_waiters_share_error<E>(
    waiting: Map<u64, usize>,
    failures: Map<u64, Arc<E>>,
    ticket: u64,
    error: Arc<E>,
    n: nat,
)
    requires
        n <= waiting_for(waiting, ticket),
    ensures
        all_told(waiting, noted(waiting, failures, ticket, error), ticket, error, n),
{
    if n > 0 {
        lemma_all_told(waiting, noted(waiting, failures, ticket, error), ticket, error, n);
    }
}

/// While an error is kept for a ticket, each of the callers that wait for
/// it is told that error.
proof fn lemma_all_told<E>(
    waiting: Map<u64, usize>,
    failures: Map<u64, Arc<E>>,
    ticket: u64,
    error: Arc<E>,
    n: nat,
)
    requires
        n <= waiting_for(waiting, ticket),
        told(failures, ticket) == Some(error),
    ensures
        all_told(waiting, failures, ticket, error, n),
    decreases n,
{
    if n > 1 {
        lemma_all_told(
            parted(waiting, ticket),
            cleared(waiting, failures, ticket),
            ticket,
            error,
            (n - 1) as nat,
        );
    } else if n == 1 {
        assert(all_told(
            parted(waiting, ticket),
            cleared(waiting, failures, ticket),
            ticket,
            error,
            0,
        ));
    }
}

/// The error of a failed round goes with the last caller that waited for
/// it, and a round that nobody waited for leaves no error behind.
pub proof fn law_errors_are_not_kept<E>(rounds: Rounds<E>, hash: u64, ticket: u64, error: Arc<E>)
    ensures
        waiting_for(rounds.waiting, ticket) == 0 ==> rounds.failed(hash, ticket, error).failures
            == rounds.failures,
        waiting_for(rounds.waiting, ticket) <= 1 ==> !rounds.left(ticket).0.failures.contains_key(
            ticket,
        ) && waiting_for(rounds.left(ticket).0.waiting, ticket) == 0,
{
}

} // verus!

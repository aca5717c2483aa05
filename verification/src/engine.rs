use vstd::prelude::*;
use crate::checkpoint::{
    copy_bytes, lemma_paid_and_outstanding, open_round, open_round_result, slot_view,
    PendingDistribution, PendingView,
};
use crate::error::EngineError;
use crate::registry::Registry;
use crate::sampler::{extract_refusal, extract_restoring, rest_of, winners_of};

verus! {

/// The most recipients that one metered step pays.
pub const MAX_USER_DISTRIBUTION: usize = 500;

/// How a step of a round ended.
#[derive(Clone, Copy, Debug, PartialEq, Eq, Structural)]
pub enum Status {
    /// Every recipient of the round has been paid; the round is closed.
    Done,
    /// The budget ran out first; the round stays open.
    Interrupted,
}

/// The payments that one step asks for: `per_user` of the asset to each of
/// `recipients`, in this order.
#[derive(Debug)]
pub struct Payout<P> {
    pub status: Status,
    pub payment: Vec<u8>,
    pub payment_nonce: u64,
    pub per_user: u128,
    pub recipients: Vec<P>,
}

/// A payout as a mathematical value.
pub struct PayoutView<P> {
    pub status: Status,
    pub payment: Seq<u8>,
    pub payment_nonce: u64,
    pub per_user: nat,
    pub recipients: Seq<P>,
}

impl<P> PayoutView<P> {
    /// The sum of the payments.
    pub open spec fn amount(self) -> nat {
        self.per_user * self.recipients.len()
    }
}

impl<P> View for Payout<P> {
    type V = PayoutView<P>;

    open spec fn view(&self) -> PayoutView<P> {
        PayoutView {
            status: self.status,
            payment: self.payment@,
            payment_nonce: self.payment_nonce,
            per_user: self.per_user as nat,
            recipients: self.recipients@,
        }
    }
}

/// The refund that a cancelled round asks for: `amount` of the asset, back to
/// whoever opened the round.
#[derive(Debug)]
pub struct Refund {
    pub payment: Vec<u8>,
    pub payment_nonce: u64,
    pub amount: u128,
}

/// A refund as a mathematical value.
pub struct RefundView {
    pub payment: Seq<u8>,
    pub payment_nonce: u64,
    pub amount: nat,
}

impl View for Refund {
    type V = RefundView;

    open spec fn view(&self) -> RefundView {
        RefundView { payment: self.payment@, payment_nonce: self.payment_nonce, amount: self.amount as nat }
    }
}

/// The registry together with the round in flight, if there is one.
pub struct Engine<P> {
    pub registry: Registry<P>,
    pub pending: Option<PendingDistribution>,
}

/// An engine as a mathematical value.
pub struct EngineView<P> {
    pub registry: Seq<P>,
    pub pending: Option<PendingView>,
}

impl<P> EngineView<P> {
    /// A round in flight is well formed and pays no more recipients than the
    /// registry holds.
    pub open spec fn wf(self) -> bool {
        match self.pending {
            Some(p) => p.wf() && p.target <= self.registry.len(),
            None => true,
        }
    }

    /// The engine after one step with this budget.
    pub open spec fn advanced(self, budget: nat) -> EngineView<P> {
        match self.pending {
            Some(p) => EngineView {
                registry: self.registry,
                pending: if p.completes(budget) {
                    None
                } else {
                    Some(p.advanced(budget))
                },
            },
            None => self,
        }
    }

    /// Who is paid in one step with this budget, in the order of payment.
    pub open spec fn paid_in(self, budget: nat) -> Seq<P> {
        match self.pending {
            Some(p) => self.registry.subrange(
                p.current_number as int,
                (p.current_number + p.steps(budget)) as int,
            ),
            None => Seq::empty(),
        }
    }

    /// What one step with this budget answers.
    pub open spec fn advance_result(self, budget: nat) -> Result<PayoutView<P>, EngineError> {
        match self.pending {
            Some(p) => Ok(
                PayoutView {
                    status: if p.completes(budget) {
                        Status::Done
                    } else {
                        Status::Interrupted
                    },
                    payment: p.payment,
                    payment_nonce: p.payment_nonce,
                    per_user: p.per_user,
                    recipients: self.paid_in(budget),
                },
            ),
            None => Err(EngineError::NoActiveRound),
        }
    }

    /// What cancelling the round answers.
    pub open spec fn cancel_result(self) -> Result<RefundView, EngineError> {
        match self.pending {
            Some(p) => Ok(
                RefundView { payment: p.payment, payment_nonce: p.payment_nonce, amount: p.outstanding() },
            ),
            None => Err(EngineError::NoActiveRound),
        }
    }

    /// Why these draws cannot be made now, if they cannot.
    pub open spec fn extract_refusal(self, draws: Seq<usize>) -> Option<EngineError> {
        if self.pending is Some {
            Some(EngineError::RoundAlreadyActive)
        } else {
            extract_refusal(self.registry.len(), draws)
        }
    }

    /// The amount that each recipient of the round in flight gets.
    pub open spec fn in_share(self) -> nat {
        match self.pending {
            Some(p) => p.per_user,
            None => 0,
        }
    }

    /// The sum of the payments of one step with this budget.
    pub open spec fn paid_amount(self, budget: nat) -> nat {
        match self.pending {
            Some(p) => p.per_user * p.steps(budget),
            None => 0,
        }
    }

    /// The amount that the round in flight has still to pay.
    pub open spec fn in_flight(self) -> nat {
        match self.pending {
            Some(p) => p.outstanding(),
            None => 0,
        }
    }

    /// The engine after one step for each budget, in their order. A step
    /// taken when no round is in flight is refused and changes nothing.
    pub open spec fn run(self, budgets: Seq<nat>) -> EngineView<P>
        decreases budgets.len(),
    {
        if budgets.len() == 0 {
            self
        } else {
            self.advanced(budgets[0]).run(budgets.drop_first())
        }
    }

    /// The sum of all payments of one step for each budget.
    pub open spec fn run_amount(self, budgets: Seq<nat>) -> nat
        decreases budgets.len(),
    {
        if budgets.len() == 0 {
            0
        } else {
            self.paid_amount(budgets[0]) + self.advanced(budgets[0]).run_amount(
                budgets.drop_first(),
            )
        }
    }

    /// The engine with no round in flight.
    pub open spec fn idle(self) -> EngineView<P> {
        EngineView { registry: self.registry, pending: None }
    }
}

/// A step keeps the engine well formed; it pays the recipients that its
/// result names, the same amount each; and what it pays is no longer owed.
pub proof fn lemma_step_accounts<P>(e: EngineView<P>, budget: nat)
    requires
        e.wf(),
    ensures
        e.advanced(budget).wf(),
        e.paid_in(budget).len() * e.in_share() == e.paid_amount(budget),
        e.paid_amount(budget) + e.advanced(budget).in_flight() == e.in_flight(),
        e.advance_result(budget) matches Ok(payout) ==> payout.amount() == e.paid_amount(budget),
{
    match e.pending {
        Some(p) => {
            let share = p.per_user as int;
            let steps = p.steps(budget) as int;
            let unpaid = p.unpaid() as int;
            assert(share * steps + share * (unpaid - steps) == share * unpaid) by (nonlinear_arith);
            assert(share * (unpaid - steps) >= 0) by (nonlinear_arith)
                requires
                    share >= 0,
                    unpaid - steps >= 0,
            ;
            assert(share * unpaid >= 0) by (nonlinear_arith)
                requires
                    share >= 0,
                    unpaid >= 0,
            ;
            assert(steps * share == share * steps) by (nonlinear_arith);
            assert(share * 0 == 0) by (nonlinear_arith);
        },
        None => {},
    }
}

/// A round may be paid out in as many steps as it takes. Two steps in a row
/// leave the engine as one step with both budgets together does, and pay the
/// same recipients in the same order, and so the same amount.
pub proof fn lemma_steps_resume<P>(e: EngineView<P>, first: nat, second: nat)
    requires
        e.wf(),
    ensures
        e.advanced(first).advanced(second) == e.advanced(first + second),
        e.paid_in(first) + e.advanced(first).paid_in(second) == e.paid_in(first + second),
        e.paid_amount(first) + e.advanced(first).paid_amount(second) == e.paid_amount(
            first + second,
        ),
{
    match e.pending {
        Some(p) => {
            let share = p.per_user as int;
            let one = p.steps(first) as int;
            let both = p.steps(first + second) as int;
            assert(share * one + share * (both - one) == share * both) by (nonlinear_arith);
            assert(share * 0 == 0) by (nonlinear_arith);
            assert(e.paid_in(first) + e.advanced(first).paid_in(second) =~= e.paid_in(
                first + second,
            ));
        },
        None => {
            assert(e.paid_in(first) + e.advanced(first).paid_in(second) =~= e.paid_in(
                first + second,
            ));
        },
    }
}

/// Nothing is lost and nothing is made. Over any number of steps of a round,
/// what had been paid before them, what they pay and what is then still owed
/// make up the whole amount of the round. So a round that has come to its end
/// has paid out its whole amount, and a round that is cancelled has paid out
/// its whole amount less the refund.
pub proof fn lemma_round_conserves<P>(e: EngineView<P>, budgets: Seq<nat>)
    requires
        e.wf(),
        e.pending is Some,
    ensures
        e.run(budgets).wf(),
        e.run(budgets).registry == e.registry,
        e.pending->0.paid() + e.run_amount(budgets) + e.run(budgets).in_flight()
            == e.pending->0.total(),
        e.run(budgets).pending is None ==> e.pending->0.paid() + e.run_amount(budgets)
            == e.pending->0.total(),
        e.run(budgets).cancel_result() matches Ok(refund) ==> e.pending->0.paid() + e.run_amount(
            budgets,
        ) + refund.amount == e.pending->0.total(),
    decreases budgets.len(),
{
    lemma_paid_and_outstanding(e.pending->0);
    lemma_run_accounts(e, budgets);
}

/// Over any number of steps, what they pay and what is then still owed make
/// up what was owed before them.
pub proof fn lemma_run_accounts<P>(e: EngineView<P>, budgets: Seq<nat>)
    requires
        e.wf(),
    ensures
        e.run(budgets).wf(),
        e.run(budgets).registry == e.registry,
        e.run_amount(budgets) + e.run(budgets).in_flight() == e.in_flight(),
    decreases budgets.len(),
{
    if budgets.len() > 0 {
        lemma_step_accounts(e, budgets[0]);
        lemma_run_accounts(e.advanced(budgets[0]), budgets.drop_first());
    }
}

impl<P> View for Engine<P> {
    type V = EngineView<P>;

    open spec fn view(&self) -> EngineView<P> {
        EngineView { registry: self.registry@, pending: slot_view(self.pending) }
    }
}

impl<P: Copy> Engine<P> {
    /// The view's well-formedness, and the round's whole amount fits the
    /// machine.
    pub open spec fn wf(&self) -> bool {
        &&& self@.wf()
        &&& match self.pending {
            Some(p) => p.wf(),
            None => true,
        }
    }

    /// An engine with an empty registry and no round in flight.
    pub fn new() -> (e: Self)
        ensures
            e.wf(),
            e@.registry == Seq::<P>::empty(),
            e@.pending is None,
    {
        Engine { registry: Registry::new(), pending: None }
    }

    /// Pays the recipients of the round in flight, in the order of the
    /// registry and from where the last step stopped, one for each unit of
    /// `budget`. When the last recipient is paid the round is closed; when the
    /// budget runs out first the round stays open and remembers where to go
    /// on.
    pub fn advance(&mut self, budget: usize) -> (r: Result<Payout<P>, EngineError>)
        requires
            old(self).wf(),
        ensures
            final(self).wf(),
            final(self)@ == old(self)@.advanced(budget as nat),
            match old(self)@.advance_result(budget as nat) {
                Ok(v) => r matches Ok(payout) && payout@ == v,
                Err(e) => r == Err::<Payout<P>, EngineError>(e) && *final(self) == *old(self),
            },
    {
        let mut round = match self.pending.take() {
            Some(round) => round,
            None => {
                return Err(EngineError::NoActiveRound);
            },
        };
        let ghost start = round@;
        let mut recipients: Vec<P> = Vec::new();
        let mut left: usize = budget;
        while left > 0 && round.current_number < round.target
            invariant
                round.wf(),
                round.target <= self.registry@.len(),
                round@ == start.advanced((budget - left) as nat),
                left <= budget,
                budget - left <= start.unpaid(),
                recipients@ == self.registry@.subrange(
                    start.current_number as int,
                    round.current_number as int,
                ),
            decreases left,
        {
            let recipient = self.registry.entries[round.current_number];
            recipients.push(recipient);
            round.current_number += 1;
            left -= 1;
            assert(recipients@ =~= self.registry@.subrange(
                start.current_number as int,
                round.current_number as int,
            ));
        }
        let payment = copy_bytes(&round.payment);
        let payment_nonce = round.payment_nonce;
        let per_user = round.per_user;
        let status = if round.current_number == round.target {
            Status::Done
        } else {
            self.pending = Some(round);
            Status::Interrupted
        };
        Ok(Payout { status, payment, payment_nonce, per_user, recipients })
    }

    /// Opens a round that pays every participant now in the registry an equal
    /// share of `total`. The deposit is validated first; a round already in
    /// flight is never replaced: for the same asset the call succeeds and
    /// leaves it as it is, for another asset the call is refused.
    pub fn open_round(&mut self, payment: Vec<u8>, payment_nonce: u64, total: u128) -> (r: Result<
        (),
        EngineError,
    >)
        ensures
            old(self).wf() ==> final(self).wf(),
            final(self)@.registry == old(self)@.registry,
            match open_round_result(
                old(self)@.pending,
                payment@,
                payment_nonce,
                total as nat,
                old(self)@.registry.len(),
            ) {
                Ok(p) => r == Ok::<(), EngineError>(()) && final(self)@.pending == Some(p),
                Err(e) => r == Err::<(), EngineError>(e) && *final(self) == *old(self),
            },
            old(self)@.pending is None && r is Ok ==> (final(self)@.pending matches Some(p)
                && p.total() == total),
    {
        let count = self.registry.count();
        open_round(&mut self.pending, payment, payment_nonce, total, count)
    }

    /// Closes the round in flight and says what is to be refunded: the shares
    /// of the recipients that have not been paid.
    pub fn cancel_round(&mut self) -> (r: Result<Refund, EngineError>)
        requires
            old(self).wf(),
        ensures
            final(self).wf(),
            match old(self)@.cancel_result() {
                Ok(v) => r matches Ok(refund) && refund@ == v && final(self)@ == old(self)@.idle(),
                Err(e) => r == Err::<Refund, EngineError>(e) && *final(self) == *old(self),
            },
    {
        let round = match self.pending.take() {
            Some(round) => round,
            None => {
                return Err(EngineError::NoActiveRound);
            },
        };
        let unpaid: usize = round.target - round.current_number;
        proof {
            let share = round.per_user as int;
            let done = round.current_number as int;
            let all = round.target as int;
            assert(0 <= share * (all - done) <= share * all) by (nonlinear_arith)
                requires
                    0 < share,
                    0 <= done <= all,
            ;
        }
        let amount: u128 = round.per_user * (unpaid as u128);
        Ok(Refund { payment: round.payment, payment_nonce: round.payment_nonce, amount })
    }

    /// Adds the participants at the end of the registry, in their order, and
    /// says how many the registry holds then. A round in flight goes on with
    /// the recipients it was opened for.
    pub fn add_participants(&mut self, participants: &Vec<P>) -> (count: usize)
        ensures
            final(self)@.registry == old(self)@.registry + participants@,
            final(self).pending == old(self).pending,
            count == final(self)@.registry.len(),
            old(self).wf() ==> final(self).wf(),
    {
        let mut i: usize = 0;
        while i < participants.len()
            invariant
                i <= participants@.len(),
                self.registry@ == old(self)@.registry + participants@.subrange(0, i as int),
                self.pending == old(self).pending,
            decreases participants@.len() - i,
        {
            self.registry.append(participants[i]);
            i += 1;
            assert(self.registry@ =~= old(self)@.registry + participants@.subrange(0, i as int));
        }
        assert(participants@.subrange(0, i as int) =~= participants@);
        self.registry.count()
    }

    /// How many participants are left to pay: with no round in flight, all of
    /// the registry; with one, those behind the last one paid.
    pub fn participants_left(&self) -> (left: usize)
        requires
            self.wf(),
        ensures
            left == match self@.pending {
                Some(p) => self@.registry.len() - p.current_number,
                None => self@.registry.len() as int,
            },
    {
        match self.pending.as_ref() {
            Some(round) => self.registry.count() - round.current_number,
            None => self.registry.count(),
        }
    }

    /// Draws one winner for each entry of `draws` and puts the winners back at
    /// the end of the registry: the registry keeps its members and loses its
    /// order. While a round is in flight nothing is drawn, since the round
    /// finds its recipients by their place in the registry.
    pub fn extract_winners(&mut self, draws: &Vec<usize>) -> (r: Result<Vec<P>, EngineError>)
        ensures
            final(self).pending == old(self).pending,
            old(self).wf() ==> final(self).wf(),
            match old(self)@.extract_refusal(draws@) {
                Some(e) => r == Err::<Vec<P>, EngineError>(e) && final(self)@ == old(self)@,
                None => r matches Ok(winners) && winners@ == winners_of(old(self)@.registry, draws@)
                    && final(self)@.registry == rest_of(old(self)@.registry, draws@) + winners_of(
                    old(self)@.registry,
                    draws@,
                ),
            },
    {
        if self.pending.is_some() {
            return Err(EngineError::RoundAlreadyActive);
        }
        extract_restoring(&mut self.registry, draws)
    }

    /// The participants, in the order of the registry.
    pub fn participants(&self) -> (all: &Vec<P>)
        ensures
            all@ == self@.registry,
    {
        &self.registry.entries
    }

    /// The round in flight, if there is one.
    pub fn pending_distribution(&self) -> (round: Option<&PendingDistribution>)
        ensures
            match round {
                Some(p) => self.pending == Some(*p),
                None => self.pending is None,
            },
    {
        self.pending.as_ref()
    }

    /// Whether the engine is well formed.
    pub fn is_wf(&self) -> (r: bool)
        ensures
            r == self.wf(),
    {
        match self.pending.as_ref() {
            Some(round) => round.is_wf() && round.target <= self.registry.count(),
            None => true,
        }
    }
}

} // verus!

use vstd::prelude::*;
use vstd::arithmetic::div_mod::lemma_fundamental_div_mod;
use crate::error::EngineError;

verus! {

/// The record of one payout round in flight: which asset is paid, how much
/// each recipient gets, how many recipients the round has, and how many of
/// them have been paid.
#[derive(Debug)]
pub struct PendingDistribution {
    /// The identifier of the token that is paid out.
    pub payment: Vec<u8>,
    /// The nonce that tells apart the instances of one token.
    pub payment_nonce: u64,
    /// The amount that every recipient gets.
    pub per_user: u128,
    /// How many recipients have been paid; the next one to pay sits at this
    /// index of the registry.
    pub current_number: usize,
    /// How many recipients the round pays in all.
    pub target: usize,
}

/// A checkpoint as a mathematical value.
pub struct PendingView {
    pub payment: Seq<u8>,
    pub payment_nonce: u64,
    pub per_user: nat,
    pub current_number: nat,
    pub target: nat,
}

impl PendingView {
    /// The whole amount that the round hands out.
    pub open spec fn total(self) -> nat {
        self.per_user * self.target
    }

    /// The amount handed out so far.
    pub open spec fn paid(self) -> nat {
        self.per_user * self.current_number
    }

    /// The amount not handed out yet.
    pub open spec fn outstanding(self) -> nat {
        (self.per_user * (self.target - self.current_number)) as nat
    }

    /// The round pays a positive amount, and no more recipients have been
    /// paid than the round has.
    pub open spec fn wf(self) -> bool {
        &&& self.per_user > 0
        &&& self.current_number <= self.target
    }

    /// Whether the round pays out this asset.
    pub open spec fn pays(self, payment: Seq<u8>, payment_nonce: u64) -> bool {
        self.payment == payment && self.payment_nonce == payment_nonce
    }

    /// How many recipients are still to be paid.
    pub open spec fn unpaid(self) -> nat {
        (self.target - self.current_number) as nat
    }

    /// How many recipients one step with this budget pays: one for each unit
    /// of the budget, until nobody is left.
    pub open spec fn steps(self, budget: nat) -> nat {
        if budget <= self.unpaid() {
            budget
        } else {
            self.unpaid()
        }
    }

    /// Whether one step with this budget pays the last recipient.
    pub open spec fn completes(self, budget: nat) -> bool {
        budget >= self.unpaid()
    }

    /// The checkpoint after one step with this budget.
    pub open spec fn advanced(self, budget: nat) -> PendingView {
        PendingView { current_number: self.current_number + self.steps(budget), ..self }
    }
}

impl View for PendingDistribution {
    type V = PendingView;

    open spec fn view(&self) -> PendingView {
        PendingView {
            payment: self.payment@,
            payment_nonce: self.payment_nonce,
            per_user: self.per_user as nat,
            current_number: self.current_number as nat,
            target: self.target as nat,
        }
    }
}

/// Why a deposit of `total` cannot be split over `recipient_count`
/// recipients, if it cannot.
pub open spec fn split_refusal(total: nat, recipient_count: nat) -> Option<EngineError> {
    if recipient_count == 0 {
        Some(EngineError::ZeroRecipients)
    } else if total / recipient_count == 0 {
        Some(EngineError::ZeroPerRecipientAmount)
    } else if (total / recipient_count) * recipient_count != total {
        Some(EngineError::RemainderMismatch)
    } else {
        None
    }
}

/// The checkpoint of a round that has just been opened.
pub open spec fn fresh_round(
    payment: Seq<u8>,
    payment_nonce: u64,
    total: nat,
    recipient_count: nat,
) -> PendingView {
    PendingView {
        payment,
        payment_nonce,
        per_user: total / recipient_count,
        current_number: 0,
        target: recipient_count,
    }
}

/// What `open_round` answers, given the round in flight, if any.
pub open spec fn open_round_result(
    existing: Option<PendingView>,
    payment: Seq<u8>,
    payment_nonce: u64,
    total: nat,
    recipient_count: nat,
) -> Result<PendingView, EngineError> {
    match split_refusal(total, recipient_count) {
        Some(e) => Err(e),
        None => match existing {
            Some(p) => if p.pays(payment, payment_nonce) {
                Ok(p)
            } else {
                Err(EngineError::RoundAlreadyActive)
            },
            None => Ok(fresh_round(payment, payment_nonce, total, recipient_count)),
        },
    }
}

/// A deposit that is a positive multiple of the number of recipients is
/// accepted, and the shares add up to the deposit with nothing left over.
pub proof fn lemma_even_split_is_accepted(
    payment: Seq<u8>,
    payment_nonce: u64,
    total: nat,
    recipient_count: nat,
)
    requires
        recipient_count > 0,
        total % recipient_count == 0,
        total / recipient_count > 0,
    ensures
        split_refusal(total, recipient_count) is None,
        open_round_result(None, payment, payment_nonce, total, recipient_count) == Ok::<
            PendingView,
            EngineError,
        >(fresh_round(payment, payment_nonce, total, recipient_count)),
        fresh_round(payment, payment_nonce, total, recipient_count).wf(),
        fresh_round(payment, payment_nonce, total, recipient_count).total() == total,
        fresh_round(payment, payment_nonce, total, recipient_count).paid() == 0,
{
    lemma_fundamental_div_mod(total as int, recipient_count as int);
    assert((total / recipient_count) * recipient_count == recipient_count * (total
        / recipient_count)) by (nonlinear_arith);
}

/// A deposit smaller than the number of recipients is refused because every
/// share would be nothing. A larger deposit that is no multiple of the number
/// of recipients is refused because something would be left over. Either
/// way the refusal comes whatever round is in flight.
pub proof fn lemma_uneven_split_is_refused(
    existing: Option<PendingView>,
    payment: Seq<u8>,
    payment_nonce: u64,
    total: nat,
    recipient_count: nat,
)
    requires
        recipient_count > 0,
    ensures
        total / recipient_count == 0 ==> open_round_result(
            existing,
            payment,
            payment_nonce,
            total,
            recipient_count,
        ) == Err::<PendingView, EngineError>(EngineError::ZeroPerRecipientAmount),
        total / recipient_count > 0 && total % recipient_count != 0 ==> open_round_result(
            existing,
            payment,
            payment_nonce,
            total,
            recipient_count,
        ) == Err::<PendingView, EngineError>(EngineError::RemainderMismatch),
{
    lemma_fundamental_div_mod(total as int, recipient_count as int);
    assert((total / recipient_count) * recipient_count == recipient_count * (total
        / recipient_count)) by (nonlinear_arith);
}

/// At every moment of a round, what has been paid and what is still to be
/// paid make up the whole amount of the round.
pub proof fn lemma_paid_and_outstanding(p: PendingView)
    requires
        p.wf(),
    ensures
        p.paid() + p.outstanding() == p.total(),
{
    let share = p.per_user as int;
    let done = p.current_number as int;
    let all = p.target as int;
    assert(share * done + share * (all - done) == share * all) by (nonlinear_arith);
    assert(share * (all - done) >= 0) by (nonlinear_arith)
        requires
            share >= 0,
            all - done >= 0,
    ;
}

/// The view of what a slot holds.
pub open spec fn slot_view(slot: Option<PendingDistribution>) -> Option<PendingView> {
    match slot {
        Some(p) => Some(p@),
        None => None,
    }
}

/// A copy of a byte string.
pub fn copy_bytes(a: &Vec<u8>) -> (r: Vec<u8>)
    ensures
        r@ == a@,
{
    let mut copy: Vec<u8> = Vec::new();
    let mut i: usize = 0;
    while i < a.len()
        invariant
            i <= a@.len(),
            copy@ == a@.subrange(0, i as int),
        decreases a@.len() - i,
    {
        copy.push(a[i]);
        i += 1;
        assert(copy@ =~= a@.subrange(0, i as int));
    }
    assert(copy@ =~= a@);
    copy
}

/// Whether two byte strings are the same.
pub fn same_bytes(a: &Vec<u8>, b: &Vec<u8>) -> (r: bool)
    ensures
        r == (a@ == b@),
{
    if a.len() != b.len() {
        return false;
    }
    let mut i: usize = 0;
    while i < a.len()
        invariant
            a@.len() == b@.len(),
            i <= a@.len(),
            forall|j: int| 0 <= j < i ==> a@[j] == b@[j],
        decreases a@.len() - i,
    {
        if a[i] != b[i] {
            return false;
        }
        i += 1;
    }
    assert(a@ =~= b@);
    true
}

impl PendingDistribution {
    /// The view's well-formedness, and the whole amount fits the machine.
    pub open spec fn wf(&self) -> bool {
        &&& self@.wf()
        &&& self@.total() <= u128::MAX
    }

    /// Whether the checkpoint is well formed.
    pub fn is_wf(&self) -> (r: bool)
        ensures
            r == self.wf(),
    {
        if self.per_user == 0 || self.current_number > self.target {
            return false;
        }
        self.per_user.checked_mul(self.target as u128).is_some()
    }

    /// Whether the round pays out this asset.
    pub fn pays(&self, payment: &Vec<u8>, payment_nonce: u64) -> (r: bool)
        ensures
            r == self@.pays(payment@, payment_nonce),
    {
        self.payment_nonce == payment_nonce && same_bytes(&self.payment, payment)
    }

    /// Splits a deposit of `total` evenly over `recipient_count` recipients
    /// and starts a round at the first of them. A deposit that does not split
    /// into equal positive shares is refused.
    pub fn open(payment: Vec<u8>, payment_nonce: u64, total: u128, recipient_count: usize) -> (r:
        Result<PendingDistribution, EngineError>)
        ensures
            match split_refusal(total as nat, recipient_count as nat) {
                Some(e) => r == Err::<PendingDistribution, EngineError>(e),
                None => r matches Ok(p) && p.wf() && p@ == fresh_round(
                    payment@,
                    payment_nonce,
                    total as nat,
                    recipient_count as nat,
                ) && p@.total() == total,
            },
    {
        if recipient_count == 0 {
            return Err(EngineError::ZeroRecipients);
        }
        let count: u128 = recipient_count as u128;
        let per_user: u128 = total / count;
        if per_user == 0 {
            return Err(EngineError::ZeroPerRecipientAmount);
        }
        proof {
            lemma_fundamental_div_mod(total as int, count as int);
            assert((total / count) * count == count * (total / count)) by (nonlinear_arith);
        }
        if per_user * count != total {
            return Err(EngineError::RemainderMismatch);
        }
        Ok(PendingDistribution { payment, payment_nonce, per_user, current_number: 0, target: recipient_count })
    }
}

/// Opens a round in `slot`, the one place where a round in flight is kept.
///
/// The deposit is validated first. Then, if the slot is empty, the new round
/// is stored in it. If it holds a round for the same asset, that round stays
/// as it is and the call succeeds. If it holds a round for another asset, the
/// call is refused. Whatever the answer, a round already in the slot is not
/// touched.
pub fn open_round(
    slot: &mut Option<PendingDistribution>,
    payment: Vec<u8>,
    payment_nonce: u64,
    total: u128,
    recipient_count: usize,
) -> (r: Result<(), EngineError>)
    ensures
        match open_round_result(
            slot_view(*old(slot)),
            payment@,
            payment_nonce,
            total as nat,
            recipient_count as nat,
        ) {
            Ok(p) => r == Ok::<(), EngineError>(()) && slot_view(*final(slot)) == Some(p),
            Err(e) => r == Err::<(), EngineError>(e) && *final(slot) == *old(slot),
        },
        *old(slot) is Some ==> *final(slot) == *old(slot),
        *old(slot) is None && r is Ok ==> (*final(slot) matches Some(p) && p.wf() && p@.total() == total),
{
    let opened = PendingDistribution::open(payment, payment_nonce, total, recipient_count);
    match opened {
        Err(e) => Err(e),
        Ok(round) => {
            let active = match slot.as_ref() {
                Some(p) => Some(p.pays(&round.payment, round.payment_nonce)),
                None => None,
            };
            match active {
                Some(true) => Ok(()),
                Some(false) => Err(EngineError::RoundAlreadyActive),
                None => {
                    *slot = Some(round);
                    Ok(())
                },
            }
        },
    }
}

} // verus!

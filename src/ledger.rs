use vstd::prelude::*;

use crate::denom::{denom_to_string, encode_token, TokenId, TokenIdView};
use crate::error::ContractError;
use crate::msg::{ReceiptPayment, ReceiptPaymentView, TransferInstruction};
use crate::order::{compare_str, seq_lt};
use crate::relation::{
    chained_single_pages, lemma_chained_pages_complete, lookup, opt_view, page, selection, Relation, RowView,
};
use crate::state::{BlockContext, BlockContextView, Payment, PaymentView};

verus! {

/// The payment log: every recorded payment, in the order of recording.
pub type Log = Seq<ReceiptPaymentView>;

/// Number of payments recorded for receipt `id`.
pub open spec fn count_of(log: Log, id: Seq<char>) -> nat
    decreases log.len(),
{
    if log.len() == 0 {
        0
    } else {
        count_of(log.drop_last(), id) + if log.last().receipt_id == id {
            1nat
        } else {
            0nat
        }
    }
}

/// The payment counts toward the total of receipt `id` in the token whose
/// key is `key`.
pub open spec fn counts_for_receipt(e: ReceiptPaymentView, id: Seq<char>, key: Seq<char>) -> bool {
    e.receipt_id == id && encode_token(e.payment.denom) == key
}

/// The payment counts toward the total of `payer` in the token whose key is
/// `key`.
pub open spec fn counts_for_payer(e: ReceiptPaymentView, payer: Seq<char>, key: Seq<char>) -> bool {
    e.payment.payer == payer && encode_token(e.payment.denom) == key
}

/// Sum of the amounts paid to receipt `id` in the token keyed `key`.
pub open spec fn receipt_sum(log: Log, id: Seq<char>, key: Seq<char>) -> nat
    decreases log.len(),
{
    if log.len() == 0 {
        0
    } else {
        receipt_sum(log.drop_last(), id, key) + if counts_for_receipt(log.last(), id, key) {
            log.last().payment.amount as nat
        } else {
            0nat
        }
    }
}

/// Sum of the amounts paid by `payer` in the token keyed `key`, over all
/// receipts.
pub open spec fn payer_sum(log: Log, payer: Seq<char>, key: Seq<char>) -> nat
    decreases log.len(),
{
    if log.len() == 0 {
        0
    } else {
        payer_sum(log.drop_last(), payer, key) + if counts_for_payer(log.last(), payer, key) {
            log.last().payment.amount as nat
        } else {
            0nat
        }
    }
}

pub open spec fn receipt_has_token(log: Log, id: Seq<char>, key: Seq<char>) -> bool {
    exists|i: int| 0 <= i < log.len() && counts_for_receipt(#[trigger] log[i], id, key)
}

pub open spec fn payer_has_token(log: Log, payer: Seq<char>, key: Seq<char>) -> bool {
    exists|i: int| 0 <= i < log.len() && counts_for_payer(#[trigger] log[i], payer, key)
}

/// `payer` has made a payment to receipt `id`.
pub open spec fn paid_into(log: Log, payer: Seq<char>, id: Seq<char>) -> bool {
    exists|i: int| 0 <= i < log.len() && (#[trigger] log[i]).receipt_id == id && log[i].payment.payer == payer
}

/// `payer` recorded payment number 0 of receipt `id`.
pub open spec fn opened_receipt(log: Log, payer: Seq<char>, id: Seq<char>) -> bool {
    exists|i: int|
        0 <= i < log.len() && (#[trigger] log[i]).receipt_id == id && log[i].receipt_payment_id == 0
            && log[i].payment.payer == payer
}

/// Each payment carries the number of payments to its receipt before it.
pub open spec fn numbered(log: Log) -> bool {
    forall|i: int|
        0 <= i < log.len() ==> (#[trigger] log[i]).receipt_payment_id == count_of(
            log.take(i),
            log[i].receipt_id,
        )
}

/// All payments to one receipt come from one payer.
pub open spec fn one_payer_per_receipt(log: Log) -> bool {
    forall|i: int, j: int|
        0 <= i < log.len() && 0 <= j < log.len() && (#[trigger] log[i]).receipt_id == (
        #[trigger] log[j]).receipt_id ==> log[i].payment.payer == log[j].payment.payer
}

/// A payment to receipt `id` by `payer` would be refused.
pub open spec fn unauthorized(log: Log, id: Seq<char>, payer: Seq<char>) -> bool {
    count_of(log, id) > 0 && !paid_into(log, payer, id)
}

/// A payment would take a counter or a total beyond its integer type.
pub open spec fn would_overflow(log: Log, id: Seq<char>, payer: Seq<char>, denom: TokenIdView, amount: u128) -> bool {
    ||| count_of(log, id) >= u64::MAX
    ||| receipt_sum(log, id, encode_token(denom)) + amount > u128::MAX
    ||| payer_sum(log, payer, encode_token(denom)) + amount > u128::MAX
}

/// The log entry that a payment appends: it is numbered after the payments
/// already recorded for its receipt.
pub open spec fn pay_entry(
    log: Log,
    id: Seq<char>,
    payer: Seq<char>,
    block: BlockContextView,
    denom: TokenIdView,
    amount: u128,
) -> ReceiptPaymentView {
    ReceiptPaymentView {
        receipt_id: id,
        receipt_payment_id: count_of(log, id) as u64,
        payment: PaymentView { payer, block, denom, amount },
    }
}

/// The log after a payment, or `None` where it is refused.
pub open spec fn after_payment(
    log: Log,
    id: Seq<char>,
    payer: Seq<char>,
    block: BlockContextView,
    denom: TokenIdView,
    amount: u128,
) -> Option<Log> {
    if unauthorized(log, id, payer) || would_overflow(log, id, payer, denom, amount) {
        None
    } else {
        Some(log.push(pay_entry(log, id, payer, block, denom, amount)))
    }
}

/// The state of the payment ledger: the output address, the payment log,
/// and the indexes kept beside it.
pub struct Ledger {
    output: String,
    /// Every payment, in the order of recording.
    payments: Vec<ReceiptPayment>,
    /// Receipt id (with an empty key) to the number of payments so far.
    payment_counts: Relation<u64>,
    /// Receipt id and token key to the total paid.
    receipt_totals: Relation<u128>,
    /// Payer and receipt id, present where the payer may pay into it.
    payer_receipts: Relation<()>,
    /// Payer and token key to the total paid over all receipts.
    payer_totals: Relation<u128>,
}

impl Ledger {
    pub closed spec fn output_view(&self) -> Seq<char> {
        self.output@
    }

    pub closed spec fn log(&self) -> Log {
        self.payments@.map_values(|p: ReceiptPayment| p@)
    }

    pub closed spec fn count_rows(&self) -> Seq<RowView<u64>> {
        self.payment_counts@
    }

    pub closed spec fn receipt_total_rows(&self) -> Seq<RowView<u128>> {
        self.receipt_totals@
    }

    pub closed spec fn payer_receipt_rows(&self) -> Seq<RowView<()>> {
        self.payer_receipts@
    }

    pub closed spec fn payer_total_rows(&self) -> Seq<RowView<u128>> {
        self.payer_totals@
    }

    /// Every index agrees with the payment log.
    pub closed spec fn wf(&self) -> bool {
        let log = self.log();
        &&& self.payment_counts.wf()
        &&& self.receipt_totals.wf()
        &&& self.payer_receipts.wf()
        &&& self.payer_totals.wf()
        &&& numbered(log)
        &&& one_payer_per_receipt(log)
        &&& forall|id: Seq<char>, k: Seq<char>|
            #[trigger] lookup(self.payment_counts@, id, k) == if k == Seq::<char>::empty()
                && count_of(log, id) > 0 {
                Some(count_of(log, id) as u64)
            } else {
                None
            }
        &&& forall|id: Seq<char>| count_of(log, id) <= u64::MAX
        &&& forall|id: Seq<char>, k: Seq<char>|
            #[trigger] lookup(self.receipt_totals@, id, k) == if receipt_has_token(log, id, k) {
                Some(receipt_sum(log, id, k) as u128)
            } else {
                None
            }
        &&& forall|id: Seq<char>, k: Seq<char>| receipt_sum(log, id, k) <= u128::MAX
        &&& forall|p: Seq<char>, id: Seq<char>|
            #[trigger] lookup(self.payer_receipts@, p, id) == if paid_into(log, p, id) {
                Some(())
            } else {
                None
            }
        &&& forall|p: Seq<char>, k: Seq<char>|
            #[trigger] lookup(self.payer_totals@, p, k) == if payer_has_token(log, p, k) {
                Some(payer_sum(log, p, k) as u128)
            } else {
                None
            }
        &&& forall|p: Seq<char>, k: Seq<char>| payer_sum(log, p, k) <= u128::MAX
    }
}


proof fn lemma_push(log: Log, e: ReceiptPaymentView)
    ensures
        log.push(e).drop_last() == log,
        log.push(e).last() == e,
        forall|id: Seq<char>|
            #[trigger] count_of(log.push(e), id) == count_of(log, id) + if e.receipt_id == id {
                1nat
            } else {
                0nat
            },
        forall|id: Seq<char>, k: Seq<char>|
            #[trigger] receipt_sum(log.push(e), id, k) == receipt_sum(log, id, k) + if counts_for_receipt(
                e,
                id,
                k,
            ) {
                e.payment.amount as nat
            } else {
                0nat
            },
        forall|p: Seq<char>, k: Seq<char>|
            #[trigger] payer_sum(log.push(e), p, k) == payer_sum(log, p, k) + if counts_for_payer(
                e,
                p,
                k,
            ) {
                e.payment.amount as nat
            } else {
                0nat
            },
{
    assert(log.push(e).drop_last() =~= log);
}

proof fn lemma_count_zero(log: Log, id: Seq<char>)
    ensures
        count_of(log, id) == 0 <==> !(exists|i: int| 0 <= i < log.len() && (#[trigger] log[i]).receipt_id == id),
    decreases log.len(),
{
    if log.len() > 0 {
        let prev = log.drop_last();
        lemma_count_zero(prev, id);
        if exists|i: int| 0 <= i < prev.len() && (#[trigger] prev[i]).receipt_id == id {
            let i = choose|i: int| 0 <= i < prev.len() && (#[trigger] prev[i]).receipt_id == id;
            assert(log[i] == prev[i]);
        }
        if exists|i: int| 0 <= i < log.len() && (#[trigger] log[i]).receipt_id == id {
            let i = choose|i: int| 0 <= i < log.len() && (#[trigger] log[i]).receipt_id == id;
            if i < log.len() - 1 {
                assert(prev[i] == log[i]);
            }
        }
    }
}

proof fn lemma_sums_without_token(log: Log, id: Seq<char>, p: Seq<char>, k: Seq<char>)
    ensures
        !receipt_has_token(log, id, k) ==> receipt_sum(log, id, k) == 0,
        !payer_has_token(log, p, k) ==> payer_sum(log, p, k) == 0,
    decreases log.len(),
{
    if log.len() > 0 {
        let prev = log.drop_last();
        lemma_sums_without_token(prev, id, p, k);
        if !receipt_has_token(log, id, k) && receipt_has_token(prev, id, k) {
            let i = choose|i: int| 0 <= i < prev.len() && counts_for_receipt(#[trigger] prev[i], id, k);
            assert(log[i] == prev[i]);
        }
        if !payer_has_token(log, p, k) && payer_has_token(prev, p, k) {
            let i = choose|i: int| 0 <= i < prev.len() && counts_for_payer(#[trigger] prev[i], p, k);
            assert(log[i] == prev[i]);
        }
        assert(!receipt_has_token(log, id, k) ==> !counts_for_receipt(log[log.len() - 1], id, k));
        assert(!payer_has_token(log, p, k) ==> !counts_for_payer(log[log.len() - 1], p, k));
    }
}

impl Ledger {
    /// An empty ledger that forwards everything to `output`.
    pub fn new(output: String) -> (r: Ledger)
        ensures
            r.wf(),
            r.output_view() == output@,
            r.log() == Seq::<ReceiptPaymentView>::empty(),
    {
        let r = Ledger {
            output,
            payments: Vec::new(),
            payment_counts: Relation::new(),
            receipt_totals: Relation::new(),
            payer_receipts: Relation::new(),
            payer_totals: Relation::new(),
        };
        assert(r.log() =~= Seq::<ReceiptPaymentView>::empty());
        r
    }

    pub fn output(&self) -> (r: &String)
        ensures
            r@ == self.output_view(),
    {
        &self.output
    }

    pub fn set_output(&mut self, output: String)
        requires
            old(self).wf(),
        ensures
            final(self).wf(),
            final(self).output_view() == output@,
            final(self).log() == old(self).log(),
            final(self).receipt_total_rows() == old(self).receipt_total_rows(),
            final(self).payer_receipt_rows() == old(self).payer_receipt_rows(),
            final(self).payer_total_rows() == old(self).payer_total_rows(),
    {
        self.output = output;
    }

    /// Records a payment of `amount` in `denom` by `payer` to receipt `id`,
    /// and returns the instruction that forwards it to the output address.
    /// The first payer of a receipt is the only one who may pay into it
    /// again. On any error the ledger is left as it was.
    pub fn record_payment(
        &mut self,
        block: &BlockContext,
        id: &String,
        denom: &TokenId,
        payer: &String,
        amount: u128,
    ) -> (r: Result<TransferInstruction, ContractError>)
        requires
            old(self).wf(),
        ensures
            final(self).wf(),
            r is Ok <==> !unauthorized(old(self).log(), id@, payer@) && !would_overflow(
                old(self).log(),
                id@,
                payer@,
                denom@,
                amount,
            ),
            r matches Err(ContractError::UnauthorizedPayer) <==> unauthorized(
                old(self).log(),
                id@,
                payer@,
            ),
            r matches Err(ContractError::Overflow) <==> !unauthorized(old(self).log(), id@, payer@)
                && would_overflow(old(self).log(), id@, payer@, denom@, amount),
            r is Err ==> *final(self) == *old(self),
            r matches Ok(t) ==> {
                &&& t@ == (denom@, amount, old(self).output_view())
                &&& final(self).output_view() == old(self).output_view()
                &&& final(self).log() == old(self).log().push(
                    pay_entry(old(self).log(), id@, payer@, block@, denom@, amount),
                )
            },
    {
        let ghost log = self.log();
        let ghost key_v = encode_token(denom@);
        let empty = String::new();
        let count: u64 = match self.payment_counts.get(id, &empty) {
            Some(c) => c,
            None => 0,
        };
        assert(count as nat == count_of(log, id@));
        if count > 0 {
            if self.payer_receipts.get(payer, id).is_none() {
                return Err(ContractError::UnauthorizedPayer);
            }
        }
        assert(!unauthorized(log, id@, payer@));
        if count == u64::MAX {
            return Err(ContractError::Overflow);
        }
        let key = denom_to_string(denom);
        proof {
            lemma_sums_without_token(log, id@, payer@, key_v);
        }
        let receipt_total: u128 = match self.receipt_totals.get(id, &key) {
            Some(t) => t,
            None => 0,
        };
        let new_receipt_total = match receipt_total.checked_add(amount) {
            Some(t) => t,
            None => {
                return Err(ContractError::Overflow);
            },
        };
        let payer_total: u128 = match self.payer_totals.get(payer, &key) {
            Some(t) => t,
            None => 0,
        };
        let new_payer_total = match payer_total.checked_add(amount) {
            Some(t) => t,
            None => {
                return Err(ContractError::Overflow);
            },
        };
        let ghost old_self = *self;
        if count == 0 {
            self.payer_receipts.upsert(payer.clone(), id.clone(), ());
        }
        let entry = ReceiptPayment {
            receipt_id: id.clone(),
            receipt_payment_id: count,
            payment: Payment {
                payer: payer.clone(),
                block: block.duplicate(),
                denom: denom.duplicate(),
                amount,
            },
        };
        let ghost e = entry@;
        self.payments.push(entry);
        self.payment_counts.upsert(id.clone(), String::new(), count + 1);
        self.receipt_totals.upsert(id.clone(), key.clone(), new_receipt_total);
        self.payer_totals.upsert(payer.clone(), key, new_payer_total);
        proof {
            assert(self.log() =~= log.push(e));
            self.lemma_record_wf(&old_self, e, count as nat);
        }
        Ok(TransferInstruction { denom: denom.duplicate(), amount, recipient: self.output.clone() })
    }

    proof fn lemma_record_wf(&self, old_self: &Ledger, e: ReceiptPaymentView, count: nat)
        requires
            old_self.wf(),
            self.log() == old_self.log().push(e),
            count == count_of(old_self.log(), e.receipt_id),
            e.receipt_payment_id == count,
            count < u64::MAX,
            !unauthorized(old_self.log(), e.receipt_id, e.payment.payer),
            receipt_sum(old_self.log(), e.receipt_id, encode_token(e.payment.denom)) + e.payment.amount
                <= u128::MAX,
            payer_sum(old_self.log(), e.payment.payer, encode_token(e.payment.denom)) + e.payment.amount
                <= u128::MAX,
            self.payment_counts.wf(),
            self.receipt_totals.wf(),
            self.payer_receipts.wf(),
            self.payer_totals.wf(),
            lookup(self.payment_counts@, e.receipt_id, Seq::<char>::empty()) == Some((count + 1) as u64),
            forall|s: Seq<char>, k: Seq<char>|
                !(s == e.receipt_id && k == Seq::<char>::empty()) ==> #[trigger] lookup(
                    self.payment_counts@,
                    s,
                    k,
                ) == lookup(old_self.payment_counts@, s, k),
            lookup(self.receipt_totals@, e.receipt_id, encode_token(e.payment.denom)) == Some(
                (receipt_sum(old_self.log(), e.receipt_id, encode_token(e.payment.denom))
                    + e.payment.amount) as u128,
            ),
            forall|s: Seq<char>, k: Seq<char>|
                !(s == e.receipt_id && k == encode_token(e.payment.denom)) ==> #[trigger] lookup(
                    self.receipt_totals@,
                    s,
                    k,
                ) == lookup(old_self.receipt_totals@, s, k),
            lookup(self.payer_totals@, e.payment.payer, encode_token(e.payment.denom)) == Some(
                (payer_sum(old_self.log(), e.payment.payer, encode_token(e.payment.denom))
                    + e.payment.amount) as u128,
            ),
            forall|s: Seq<char>, k: Seq<char>|
                !(s == e.payment.payer && k == encode_token(e.payment.denom)) ==> #[trigger] lookup(
                    self.payer_totals@,
                    s,
                    k,
                ) == lookup(old_self.payer_totals@, s, k),
            lookup(self.payer_receipts@, e.payment.payer, e.receipt_id) == Some(()),
            forall|s: Seq<char>, k: Seq<char>|
                !(s == e.payment.payer && k == e.receipt_id) ==> #[trigger] lookup(
                    self.payer_receipts@,
                    s,
                    k,
                ) == lookup(old_self.payer_receipts@, s, k),
        ensures
            self.wf(),
    {
        let log = old_self.log();
        let nlog = self.log();
        let n = log.len() as int;
        let id = e.receipt_id;
        let payer = e.payment.payer;
        let key = encode_token(e.payment.denom);
        lemma_push(log, e);
        assert(nlog[n] == e);
        assert forall|i: int| 0 <= i < nlog.len() implies (#[trigger] nlog[i]).receipt_payment_id == count_of(
            nlog.take(i),
            nlog[i].receipt_id,
        ) by {
            if i < n {
                assert(nlog.take(i) =~= log.take(i));
                assert(nlog[i] == log[i]);
            } else {
                assert(nlog.take(i) =~= log);
            }
        }
        if count == 0 {
            lemma_count_zero(log, id);
        } else {
            assert(paid_into(log, payer, id));
        }
        assert forall|i: int, j: int|
            0 <= i < nlog.len() && 0 <= j < nlog.len() && (#[trigger] nlog[i]).receipt_id == (
            #[trigger] nlog[j]).receipt_id implies nlog[i].payment.payer == nlog[j].payment.payer by {
            if i < n && j < n {
                assert(nlog[i] == log[i] && nlog[j] == log[j]);
            } else if i < n {
                assert(nlog[i] == log[i]);
                let w = choose|w: int| 0 <= w < log.len() && (#[trigger] log[w]).receipt_id == id && log[w].payment.payer == payer;
            } else if j < n {
                assert(nlog[j] == log[j]);
                let w = choose|w: int| 0 <= w < log.len() && (#[trigger] log[w]).receipt_id == id && log[w].payment.payer == payer;
            }
        }
        assert forall|s: Seq<char>, k: Seq<char>| #[trigger]
            lookup(self.payment_counts@, s, k) == if k == Seq::<char>::empty() && count_of(nlog, s) > 0 {
                Some(count_of(nlog, s) as u64)
            } else {
                None
            } by {
            assert(lookup(old_self.payment_counts@, s, k) == if k == Seq::<char>::empty() && count_of(log, s) > 0 {
                Some(count_of(log, s) as u64)
            } else {
                None
            });
        }
        assert forall|s: Seq<char>| count_of(nlog, s) <= u64::MAX by {
            assert(count_of(log, s) <= u64::MAX);
        }
        assert forall|s: Seq<char>, k: Seq<char>| #[trigger]
            lookup(self.receipt_totals@, s, k) == if receipt_has_token(nlog, s, k) {
                Some(receipt_sum(nlog, s, k) as u128)
            } else {
                None
            } by {
            assert(lookup(old_self.receipt_totals@, s, k) == if receipt_has_token(log, s, k) {
                Some(receipt_sum(log, s, k) as u128)
            } else {
                None
            });
            assert(counts_for_receipt(nlog[n], id, key));
            if receipt_has_token(log, s, k) {
                let i = choose|i: int| 0 <= i < log.len() && counts_for_receipt(#[trigger] log[i], s, k);
                assert(nlog[i] == log[i]);
            }
            if receipt_has_token(nlog, s, k) && !(s == id && k == key) {
                let i = choose|i: int| 0 <= i < nlog.len() && counts_for_receipt(#[trigger] nlog[i], s, k);
                assert(nlog[i] == log[i]);
            }
        }
        assert forall|s: Seq<char>, k: Seq<char>| receipt_sum(nlog, s, k) <= u128::MAX by {
            assert(receipt_sum(log, s, k) <= u128::MAX);
        }
        assert forall|s: Seq<char>, k: Seq<char>| #[trigger]
            lookup(self.payer_receipts@, s, k) == if paid_into(nlog, s, k) {
                Some(())
            } else {
                None
            } by {
            assert(lookup(old_self.payer_receipts@, s, k) == if paid_into(log, s, k) {
                Some(())
            } else {
                None
            });
            assert(nlog[n].receipt_id == id && nlog[n].payment.payer == payer);
            if paid_into(log, s, k) {
                let i = choose|i: int| 0 <= i < log.len() && (#[trigger] log[i]).receipt_id == k && log[i].payment.payer == s;
                assert(nlog[i] == log[i]);
            }
            if paid_into(nlog, s, k) && !(s == payer && k == id) {
                let i = choose|i: int| 0 <= i < nlog.len() && (#[trigger] nlog[i]).receipt_id == k && nlog[i].payment.payer == s;
                assert(nlog[i] == log[i]);
            }
        }
        assert forall|s: Seq<char>, k: Seq<char>| #[trigger]
            lookup(self.payer_totals@, s, k) == if payer_has_token(nlog, s, k) {
                Some(payer_sum(nlog, s, k) as u128)
            } else {
                None
            } by {
            assert(lookup(old_self.payer_totals@, s, k) == if payer_has_token(log, s, k) {
                Some(payer_sum(log, s, k) as u128)
            } else {
                None
            });
            assert(counts_for_payer(nlog[n], payer, key));
            if payer_has_token(log, s, k) {
                let i = choose|i: int| 0 <= i < log.len() && counts_for_payer(#[trigger] log[i], s, k);
                assert(nlog[i] == log[i]);
            }
            if payer_has_token(nlog, s, k) && !(s == payer && k == key) {
                let i = choose|i: int| 0 <= i < nlog.len() && counts_for_payer(#[trigger] nlog[i], s, k);
                assert(nlog[i] == log[i]);
            }
        }
        assert forall|s: Seq<char>, k: Seq<char>| payer_sum(nlog, s, k) <= u128::MAX by {
            assert(payer_sum(log, s, k) <= u128::MAX);
        }
    }
}

/// The payments to receipt `id` whose number comes after `after`, in the
/// order of recording.
pub open spec fn payments_after(log: Log, id: Seq<char>, after: Option<u64>) -> Log
    decreases log.len(),
{
    if log.len() == 0 {
        Seq::empty()
    } else {
        let prev = payments_after(log.drop_last(), id, after);
        if payment_in_listing(log.last(), id, after) {
            prev.push(log.last())
        } else {
            prev
        }
    }
}

pub open spec fn payment_in_listing(e: ReceiptPaymentView, id: Seq<char>, after: Option<u64>) -> bool {
    e.receipt_id == id && match after {
        None => true,
        Some(a) => a < e.receipt_payment_id,
    }
}

/// The first `limit` entries of a listing.
pub open spec fn first_n<A>(s: Seq<A>, limit: nat) -> Seq<A> {
    if limit < s.len() {
        s.take(limit as int)
    } else {
        s
    }
}

proof fn lemma_payments_after_take(log: Log, id: Seq<char>, after: Option<u64>, i: int)
    requires
        0 <= i < log.len(),
    ensures
        payments_after(log.take(i + 1), id, after) == if payment_in_listing(log[i], id, after) {
            payments_after(log.take(i), id, after).push(log[i])
        } else {
            payments_after(log.take(i), id, after)
        },
{
    assert(log.take(i + 1).drop_last() =~= log.take(i));
}

proof fn lemma_payments_after_prefix(log: Log, id: Seq<char>, after: Option<u64>, i: int)
    requires
        0 <= i <= log.len(),
    ensures
        payments_after(log.take(i), id, after).len() <= payments_after(log, id, after).len(),
        payments_after(log.take(i), id, after) =~= payments_after(log, id, after).take(
            payments_after(log.take(i), id, after).len() as int,
        ),
    decreases log.len(),
{
    if i == log.len() {
        assert(log.take(i) =~= log);
    } else {
        assert(log.drop_last().take(i) =~= log.take(i));
        lemma_payments_after_prefix(log.drop_last(), id, after, i);
    }
}

impl Ledger {
    /// A copy of the ledger, equal in every view.
    pub fn duplicate(&self) -> (r: Ledger)
        requires
            self.wf(),
        ensures
            r.wf(),
            r.output_view() == self.output_view(),
            r.log() == self.log(),
            r.receipt_total_rows() == self.receipt_total_rows(),
            r.payer_receipt_rows() == self.payer_receipt_rows(),
            r.payer_total_rows() == self.payer_total_rows(),
    {
        let n = self.payments.len();
        let mut payments: Vec<ReceiptPayment> = Vec::new();
        let mut i: usize = 0;
        while i < n
            invariant
                n == self.payments@.len(),
                0 <= i <= n,
                payments@.len() == i,
                forall|j: int| 0 <= j < i ==> (#[trigger] payments@[j])@ == self.payments@[j]@,
            decreases n - i,
        {
            payments.push(self.payments[i].duplicate());
            i = i + 1;
        }
        let r = Ledger {
            output: self.output.clone(),
            payments,
            payment_counts: self.payment_counts.duplicate(),
            receipt_totals: self.receipt_totals.duplicate(),
            payer_receipts: self.payer_receipts.duplicate(),
            payer_totals: self.payer_totals.duplicate(),
        };
        assert(r.log() =~= self.log());
        r
    }

    /// At most `limit` payments to receipt `id` numbered after `after`, in
    /// ascending order of number.
    pub fn payments_page(&self, id: &String, after: Option<u64>, limit: usize) -> (r: Vec<
        crate::msg::ReceiptPaymentWithoutId,
    >)
        requires
            self.wf(),
        ensures
            r@.len() == first_n(payments_after(self.log(), id@, after), limit as nat).len(),
            forall|i: int|
                0 <= i < r@.len() ==> {
                    let e = first_n(payments_after(self.log(), id@, after), limit as nat)[i];
                    &&& (#[trigger] r@[i]).receipt_payment_id == e.receipt_payment_id
                    &&& r@[i].payment@ == e.payment
                },
    {
        let ghost log = self.log();
        let n = self.payments.len();
        let mut out: Vec<crate::msg::ReceiptPaymentWithoutId> = Vec::new();
        let mut i: usize = 0;
        while i < n && out.len() < limit
            invariant
                n == log.len(),
                log == self.log(),
                0 <= i <= n,
                out@.len() == payments_after(log.take(i as int), id@, after).len(),
                out@.len() <= limit,
                forall|j: int|
                    0 <= j < out@.len() ==> {
                        let e = payments_after(log.take(i as int), id@, after)[j];
                        &&& (#[trigger] out@[j]).receipt_payment_id == e.receipt_payment_id
                        &&& out@[j].payment@ == e.payment
                    },
            decreases n - i,
        {
            proof {
                lemma_payments_after_take(log, id@, after, i as int);
            }
            let entry = &self.payments[i];
            assert(entry@ == log[i as int]);
            let same = compare_str(entry.receipt_id.as_str(), id.as_str()) == 0;
            let wanted = same && match after {
                None => true,
                Some(a) => a < entry.receipt_payment_id,
            };
            if wanted {
                out.push(
                    crate::msg::ReceiptPaymentWithoutId {
                        receipt_payment_id: entry.receipt_payment_id,
                        payment: entry.payment.duplicate(),
                    },
                );
            }
            i = i + 1;
        }
        proof {
            lemma_payments_after_prefix(log, id@, after, i as int);
            if i == n {
                assert(log.take(i as int) =~= log);
            }
        }
        out
    }

    pub fn receipt_totals_page(&self, id: &String, after: Option<&String>, limit: usize) -> (r: Vec<(String, u128)>)
        requires
            self.wf(),
        ensures
            r@.len() == page(self.receipt_total_rows(), id@, opt_view(after), limit as nat).len(),
            forall|i: int|
                0 <= i < r@.len() ==> (#[trigger] r@[i]).0@ == page(
                    self.receipt_total_rows(),
                    id@,
                    opt_view(after),
                    limit as nat,
                )[i].0 && r@[i].1 == page(self.receipt_total_rows(), id@, opt_view(after), limit as nat)[i].1,
    {
        self.receipt_totals.page(id, after, limit)
    }

    pub fn payer_totals_page(&self, payer: &String, after: Option<&String>, limit: usize) -> (r: Vec<(String, u128)>)
        requires
            self.wf(),
        ensures
            r@.len() == page(self.payer_total_rows(), payer@, opt_view(after), limit as nat).len(),
            forall|i: int|
                0 <= i < r@.len() ==> (#[trigger] r@[i]).0@ == page(
                    self.payer_total_rows(),
                    payer@,
                    opt_view(after),
                    limit as nat,
                )[i].0 && r@[i].1 == page(self.payer_total_rows(), payer@, opt_view(after), limit as nat)[i].1,
    {
        self.payer_totals.page(payer, after, limit)
    }

    pub fn payer_receipts_page(&self, payer: &String, after: Option<&String>, limit: usize) -> (r: Vec<(String, ())>)
        requires
            self.wf(),
        ensures
            r@.len() == page(self.payer_receipt_rows(), payer@, opt_view(after), limit as nat).len(),
            forall|i: int|
                0 <= i < r@.len() ==> (#[trigger] r@[i]).0@ == page(
                    self.payer_receipt_rows(),
                    payer@,
                    opt_view(after),
                    limit as nat,
                )[i].0,
    {
        self.payer_receipts.page(payer, after, limit)
    }
}

proof fn lemma_numbering_of_log(log: Log, id: Seq<char>)
    requires
        numbered(log),
    ensures
        payments_after(log, id, None).len() == count_of(log, id),
        forall|k: int|
            0 <= k < payments_after(log, id, None).len() ==> (#[trigger] payments_after(log, id, None)[k]).receipt_payment_id
                == k,
        forall|k: int|
            0 <= k < payments_after(log, id, None).len() ==> exists|i: int|
                0 <= i < log.len() && log[i] == #[trigger] payments_after(log, id, None)[k],
    decreases log.len(),
{
    if log.len() > 0 {
        let prev = log.drop_last();
        let n = prev.len() as int;
        assert forall|i: int| 0 <= i < prev.len() implies (#[trigger] prev[i]).receipt_payment_id == count_of(
            prev.take(i),
            prev[i].receipt_id,
        ) by {
            assert(prev.take(i) =~= log.take(i));
            assert(prev[i] == log[i]);
        }
        lemma_numbering_of_log(prev, id);
        assert(log.take(n) =~= prev);
        assert(log[n] == log.last());
        let pa = payments_after(log, id, None);
        let pp = payments_after(prev, id, None);
        assert forall|k: int| 0 <= k < pa.len() implies exists|i: int|
            0 <= i < log.len() && log[i] == #[trigger] pa[k] by {
            if k < pp.len() {
                let i = choose|i: int| 0 <= i < prev.len() && prev[i] == pp[k];
                assert(log[i] == prev[i]);
            } else {
                assert(log[n] == pa[k]);
            }
        }
    }
}

/// Numbering: the payments to a receipt, as listed, carry the numbers
/// 0, 1, 2, ... in order with none missing, and its counter holds how many
/// there are.
pub proof fn lemma_sequential_numbering(ledger: &Ledger, id: Seq<char>)
    requires
        ledger.wf(),
    ensures
        payments_after(ledger.log(), id, None).len() == count_of(ledger.log(), id),
        forall|k: int|
            0 <= k < payments_after(ledger.log(), id, None).len() ==> (#[trigger] payments_after(
                ledger.log(),
                id,
                None,
            )[k]).receipt_payment_id == k,
        lookup(ledger.count_rows(), id, Seq::<char>::empty()) == if count_of(ledger.log(), id) > 0 {
            Some(count_of(ledger.log(), id) as u64)
        } else {
            None
        },
{
    lemma_numbering_of_log(ledger.log(), id);
    assert(lookup(ledger.payment_counts@, id, Seq::<char>::empty()) == if count_of(ledger.log(), id) > 0 {
        Some(count_of(ledger.log(), id) as u64)
    } else {
        None
    });
}

/// Single payer: once `p` has recorded payment number 0 of receipt `id`,
/// every payment to `id` is by `p`, and a payment to `id` by any other
/// payer `q` is refused, which leaves the ledger as it was.
pub proof fn lemma_single_payer_lock(ledger: &Ledger, p: Seq<char>, q: Seq<char>, id: Seq<char>)
    requires
        ledger.wf(),
        opened_receipt(ledger.log(), p, id),
        q != p,
    ensures
        unauthorized(ledger.log(), id, q),
        forall|i: int|
            0 <= i < ledger.log().len() && (#[trigger] ledger.log()[i]).receipt_id == id
                ==> ledger.log()[i].payment.payer == p,
{
    let log = ledger.log();
    let i0 = choose|i: int|
        0 <= i < log.len() && (#[trigger] log[i]).receipt_id == id && log[i].receipt_payment_id == 0
            && log[i].payment.payer == p;
    lemma_count_zero(log, id);
    assert(log[i0].receipt_id == id);
    if paid_into(log, q, id) {
        let j = choose|j: int| 0 <= j < log.len() && (#[trigger] log[j]).receipt_id == id && log[j].payment.payer == q;
        assert(log[i0].payment.payer == log[j].payment.payer);
    }
    assert forall|i: int|
        0 <= i < log.len() && (#[trigger] log[i]).receipt_id == id implies log[i].payment.payer == p by {
        assert(log[i0].receipt_id == log[i].receipt_id);
    }
}

/// Authorisation: a payer is listed for a receipt exactly where the payer
/// recorded its payment number 0.
pub proof fn lemma_authorised_payer(ledger: &Ledger, p: Seq<char>, id: Seq<char>)
    requires
        ledger.wf(),
    ensures
        lookup(ledger.payer_receipt_rows(), p, id) is Some <==> opened_receipt(ledger.log(), p, id),
{
    let log = ledger.log();
    assert(lookup(ledger.payer_receipts@, p, id) == if paid_into(log, p, id) {
        Some(())
    } else {
        None
    });
    if paid_into(log, p, id) {
        let j = choose|j: int| 0 <= j < log.len() && (#[trigger] log[j]).receipt_id == id && log[j].payment.payer == p;
        lemma_numbering_of_log(log, id);
        lemma_count_zero(log, id);
        let pa = payments_after(log, id, None);
        assert(pa[0].receipt_payment_id == 0);
        let i = choose|i: int| 0 <= i < log.len() && log[i] == #[trigger] pa[0];
        lemma_payments_after_members(log, id, 0);
        assert(log[i].receipt_id == log[j].receipt_id);
        assert(opened_receipt(log, p, id));
    }
}

proof fn lemma_payments_after_members(log: Log, id: Seq<char>, k: int)
    requires
        0 <= k < payments_after(log, id, None).len(),
    ensures
        payments_after(log, id, None)[k].receipt_id == id,
    decreases log.len(),
{
    let prev = log.drop_last();
    if k < payments_after(prev, id, None).len() {
        lemma_payments_after_members(prev, id, k);
    }
}

/// Totals: for every receipt and every payer, the stored total in a token
/// is the sum of the amounts of the recorded payments in that token, and
/// there is a stored total exactly where such a payment was recorded.
pub proof fn lemma_totals_match_log(ledger: &Ledger, id: Seq<char>, payer: Seq<char>, t: TokenIdView)
    requires
        ledger.wf(),
    ensures
        lookup(ledger.receipt_total_rows(), id, encode_token(t)) == if receipt_has_token(
            ledger.log(),
            id,
            encode_token(t),
        ) {
            Some(receipt_sum(ledger.log(), id, encode_token(t)) as u128)
        } else {
            None
        },
        receipt_sum(ledger.log(), id, encode_token(t)) <= u128::MAX,
        lookup(ledger.payer_total_rows(), payer, encode_token(t)) == if payer_has_token(
            ledger.log(),
            payer,
            encode_token(t),
        ) {
            Some(payer_sum(ledger.log(), payer, encode_token(t)) as u128)
        } else {
            None
        },
        payer_sum(ledger.log(), payer, encode_token(t)) <= u128::MAX,
{
    assert(lookup(ledger.receipt_totals@, id, encode_token(t)) == if receipt_has_token(
        ledger.log(),
        id,
        encode_token(t),
    ) {
        Some(receipt_sum(ledger.log(), id, encode_token(t)) as u128)
    } else {
        None
    });
    assert(lookup(ledger.payer_totals@, payer, encode_token(t)) == if payer_has_token(
        ledger.log(),
        payer,
        encode_token(t),
    ) {
        Some(payer_sum(ledger.log(), payer, encode_token(t)) as u128)
    } else {
        None
    });
}

/// Paging: for each listing kept in key order, single-entry pages, each
/// resuming after the key that ended the one before, yield the same
/// ordered sequence as one listing without a page limit.
pub proof fn lemma_listing_pages_complete(ledger: &Ledger, scope: Seq<char>, after: Option<Seq<char>>, n: nat)
    requires
        ledger.wf(),
    ensures
        n >= selection(ledger.receipt_total_rows(), scope, after).len() ==> chained_single_pages(
            ledger.receipt_total_rows(),
            scope,
            after,
            n,
        ) == selection(ledger.receipt_total_rows(), scope, after),
        n >= selection(ledger.payer_total_rows(), scope, after).len() ==> chained_single_pages(
            ledger.payer_total_rows(),
            scope,
            after,
            n,
        ) == selection(ledger.payer_total_rows(), scope, after),
        n >= selection(ledger.payer_receipt_rows(), scope, after).len() ==> chained_single_pages(
            ledger.payer_receipt_rows(),
            scope,
            after,
            n,
        ) == selection(ledger.payer_receipt_rows(), scope, after),
{
    if n >= selection(ledger.receipt_total_rows(), scope, after).len() {
        lemma_chained_pages_complete(ledger.receipt_total_rows(), scope, after, n);
    }
    if n >= selection(ledger.payer_total_rows(), scope, after).len() {
        lemma_chained_pages_complete(ledger.payer_total_rows(), scope, after, n);
    }
    if n >= selection(ledger.payer_receipt_rows(), scope, after).len() {
        lemma_chained_pages_complete(ledger.payer_receipt_rows(), scope, after, n);
    }
}

/// The log that recording each of `entries` in turn on an empty ledger
/// gives, or `None` where one of them is refused. The numbers that the
/// entries carry are not read: recording numbers them anew.
pub open spec fn replayed(entries: Log) -> Option<Log>
    decreases entries.len(),
{
    if entries.len() == 0 {
        Some(Seq::empty())
    } else {
        match replayed(entries.drop_last()) {
            None => None,
            Some(l) => {
                let e = entries.last();
                after_payment(l, e.receipt_id, e.payment.payer, e.payment.block, e.payment.denom, e.payment.amount)
            },
        }
    }
}

proof fn lemma_replayed_refused(entries: Log, i: int)
    requires
        0 <= i <= entries.len(),
        replayed(entries.take(i)) is None,
    ensures
        replayed(entries) is None,
    decreases entries.len() - i,
{
    if i == entries.len() {
        assert(entries.take(i) =~= entries);
    } else {
        assert(entries.take(i + 1).drop_last() =~= entries.take(i));
        lemma_replayed_refused(entries, i + 1);
    }
}

proof fn lemma_prefix_bounds(log: Log, i: int, id: Seq<char>, p: Seq<char>, k: Seq<char>)
    requires
        0 <= i <= log.len(),
    ensures
        count_of(log.take(i), id) <= count_of(log, id),
        receipt_sum(log.take(i), id, k) <= receipt_sum(log, id, k),
        payer_sum(log.take(i), p, k) <= payer_sum(log, p, k),
    decreases log.len(),
{
    if i < log.len() {
        assert(log.drop_last().take(i) =~= log.take(i));
        lemma_prefix_bounds(log.drop_last(), i, id, p, k);
    } else {
        assert(log.take(i) =~= log);
    }
}

proof fn lemma_replay_prefix(ledger: &Ledger, i: int)
    requires
        ledger.wf(),
        0 <= i <= ledger.log().len(),
    ensures
        replayed(ledger.log().take(i)) == Some(ledger.log().take(i)),
    decreases i,
{
    let log = ledger.log();
    if i == 0 {
        assert(log.take(0) =~= Seq::<ReceiptPaymentView>::empty());
    } else {
        let j = i - 1;
        lemma_replay_prefix(ledger, j);
        let e = log[j];
        let pre = log.take(j);
        let id = e.receipt_id;
        let payer = e.payment.payer;
        let k = encode_token(e.payment.denom);
        assert(log.take(i).drop_last() =~= pre);
        assert(log.take(i).last() == e);
        lemma_push(pre, e);
        assert(log.take(i) =~= pre.push(e));
        lemma_prefix_bounds(log, i, id, payer, k);
        assert(count_of(log, id) <= u64::MAX);
        assert(receipt_sum(log, id, k) <= u128::MAX);
        assert(payer_sum(log, payer, k) <= u128::MAX);
        if count_of(pre, id) > 0 {
            lemma_count_zero(pre, id);
            let w = choose|w: int| 0 <= w < pre.len() && (#[trigger] pre[w]).receipt_id == id;
            assert(pre[w] == log[w]);
            assert(log[w].receipt_id == log[j].receipt_id);
            assert(paid_into(pre, payer, id));
        }
        assert(e.receipt_payment_id == count_of(pre, id));
        assert(pay_entry(pre, id, payer, e.payment.block, e.payment.denom, e.payment.amount) == e);
    }
}

/// Replay: recording the payments of a ledger's log, in order, on an empty
/// ledger rebuilds that same log; the log alone determines the ledger.
pub proof fn lemma_replay_own_log(ledger: &Ledger)
    requires
        ledger.wf(),
    ensures
        replayed(ledger.log()) == Some(ledger.log()),
{
    lemma_replay_prefix(ledger, ledger.log().len() as int);
    assert(ledger.log().take(ledger.log().len() as int) =~= ledger.log());
}

impl Ledger {
    /// The payment log, in the order of recording.
    pub fn payments(&self) -> (r: &Vec<ReceiptPayment>)
        ensures
            r@.map_values(|p: ReceiptPayment| p@) == self.log(),
    {
        &self.payments
    }

    /// A ledger rebuilt by recording `entries` in turn on an empty ledger
    /// that forwards to `output`.
    pub fn restore(output: String, entries: &Vec<ReceiptPayment>) -> (r: Result<Ledger, ContractError>)
        ensures
            r is Ok <==> replayed(entries@.map_values(|p: ReceiptPayment| p@)) is Some,
            r matches Ok(l) ==> {
                &&& l.wf()
                &&& Some(l.log()) == replayed(entries@.map_values(|p: ReceiptPayment| p@))
                &&& l.output_view() == output@
            },
    {
        let ghost ev = entries@.map_values(|p: ReceiptPayment| p@);
        let ghost out_v = output@;
        let mut ledger = Ledger::new(output);
        let n = entries.len();
        let mut i: usize = 0;
        assert(ev.take(0) =~= Seq::<ReceiptPaymentView>::empty());
        while i < n
            invariant
                n == ev.len(),
                ev == entries@.map_values(|p: ReceiptPayment| p@),
                0 <= i <= n,
                ledger.wf(),
                ledger.output_view() == out_v,
                replayed(ev.take(i as int)) == Some(ledger.log()),
            decreases n - i,
        {
            let e = &entries[i];
            proof {
                assert(ev.take(i as int + 1).drop_last() =~= ev.take(i as int));
                assert(ev.take(i as int + 1).last() == ev[i as int]);
                assert(ev[i as int] == e@);
            }
            match ledger.record_payment(&e.payment.block, &e.receipt_id, &e.payment.denom, &e.payment.payer, e.payment.amount) {
                Ok(_) => {},
                Err(err) => {
                    proof {
                        lemma_replayed_refused(ev, i as int + 1);
                    }
                    return Err(err);
                },
            }
            i = i + 1;
        }
        proof {
            assert(ev.take(n as int) =~= ev);
        }
        Ok(ledger)
    }
}

/// Where a listing of payments that resumes after `after` starts among all
/// payments to a receipt, `len` of them.
pub open spec fn listing_start(after: Option<u64>, len: nat) -> int {
    match after {
        None => 0,
        Some(a) => if (a as int) + 1 < len {
            (a as int) + 1
        } else {
            len as int
        },
    }
}

/// What `n` pages of one payment each give when each resumes after the
/// number of the payment that ended the one before.
pub open spec fn chained_single_payment_pages(log: Log, id: Seq<char>, after: Option<u64>, n: nat) -> Log
    decreases n,
{
    if n == 0 {
        Seq::empty()
    } else {
        let p = first_n(payments_after(log, id, after), 1);
        if p.len() == 0 {
            p
        } else {
            p + chained_single_payment_pages(log, id, Some(p[0].receipt_payment_id), (n - 1) as nat)
        }
    }
}

proof fn lemma_payments_after_skip(log: Log, id: Seq<char>, after: Option<u64>)
    requires
        numbered(log),
    ensures
        payments_after(log, id, after) == payments_after(log, id, None).skip(
            listing_start(after, payments_after(log, id, None).len()),
        ),
    decreases log.len(),
{
    let pa = payments_after(log, id, None);
    if log.len() == 0 {
        assert(pa.skip(listing_start(after, pa.len())) =~= Seq::<ReceiptPaymentView>::empty());
    } else {
        let prev = log.drop_last();
        let n = prev.len() as int;
        assert forall|i: int| 0 <= i < prev.len() implies (#[trigger] prev[i]).receipt_payment_id == count_of(
            prev.take(i),
            prev[i].receipt_id,
        ) by {
            assert(prev.take(i) =~= log.take(i));
            assert(prev[i] == log[i]);
        }
        lemma_payments_after_skip(prev, id, after);
        lemma_numbering_of_log(prev, id);
        assert(log.take(n) =~= prev);
        assert(log[n] == log.last());
        let pp = payments_after(prev, id, None);
        if log.last().receipt_id == id {
            assert(log.last().receipt_payment_id == pp.len());
            assert(pa =~= pp.push(log.last()));
            assert(payments_after(log, id, after) =~= pa.skip(listing_start(after, pa.len())));
        } else {
            assert(pa == pp);
        }
    }
}

proof fn lemma_chained_payment_pages(log: Log, id: Seq<char>, after: Option<u64>, n: nat)
    requires
        numbered(log),
        n >= payments_after(log, id, after).len(),
    ensures
        chained_single_payment_pages(log, id, after, n) == payments_after(log, id, after),
    decreases n,
{
    let pa = payments_after(log, id, None);
    let s = listing_start(after, pa.len());
    lemma_payments_after_skip(log, id, after);
    lemma_numbering_of_log(log, id);
    let rest = payments_after(log, id, after);
    if rest.len() == 0 {
        if n > 0 {
            assert(first_n(rest, 1) =~= rest);
        }
    } else {
        assert(rest[0] == pa[s]);
        assert(pa[s].receipt_payment_id == s);
        assert(first_n(rest, 1) =~= seq![pa[s]]);
        lemma_payments_after_skip(log, id, Some(s as u64));
        assert(listing_start(Some(s as u64), pa.len()) == s + 1);
        lemma_chained_payment_pages(log, id, Some(s as u64), (n - 1) as nat);
        assert(seq![pa[s]] + pa.skip(s + 1) =~= pa.skip(s));
    }
}

/// Paging of payments: single-payment pages, each resuming after the number
/// of the payment that ended the one before, yield the same ordered
/// sequence as one listing without a page limit.
pub proof fn lemma_payment_pages_complete(ledger: &Ledger, id: Seq<char>, after: Option<u64>, n: nat)
    requires
        ledger.wf(),
        n >= payments_after(ledger.log(), id, after).len(),
    ensures
        chained_single_payment_pages(ledger.log(), id, after, n) == payments_after(ledger.log(), id, after),
{
    lemma_chained_payment_pages(ledger.log(), id, after, n);
}

proof fn lemma_payments_after_receipt(log: Log, id: Seq<char>, after: Option<u64>, k: int)
    requires
        0 <= k < payments_after(log, id, after).len(),
    ensures
        payments_after(log, id, after)[k].receipt_id == id,
    decreases log.len(),
{
    let prev = log.drop_last();
    if k < payments_after(prev, id, after).len() {
        lemma_payments_after_receipt(prev, id, after, k);
    }
}

/// The part of the listing of all payments that falls to receipt `id`, for
/// a listing that resumes after the payment `after` (a receipt id and a
/// payment number).
pub open spec fn receipt_part(log: Log, id: Seq<char>, after: Option<(Seq<char>, u64)>) -> Log {
    match after {
        None => payments_after(log, id, None),
        Some((aid, an)) => if id == aid {
            payments_after(log, id, Some(an))
        } else if seq_lt(aid, id) {
            payments_after(log, id, None)
        } else {
            Seq::empty()
        },
    }
}

/// All payments, receipt by receipt in the order of `receipts`, each
/// receipt's in ascending order of number, after the cursor.
pub open spec fn all_payments_after(log: Log, receipts: Seq<RowView<u64>>, after: Option<(Seq<char>, u64)>) -> Log
    decreases receipts.len(),
{
    if receipts.len() == 0 {
        Seq::empty()
    } else {
        all_payments_after(log, receipts.drop_last(), after) + receipt_part(log, receipts.last().0, after)
    }
}

proof fn lemma_all_payments_prefix(log: Log, receipts: Seq<RowView<u64>>, after: Option<(Seq<char>, u64)>, i: int)
    requires
        0 <= i <= receipts.len(),
    ensures
        all_payments_after(log, receipts.take(i), after).len() <= all_payments_after(log, receipts, after).len(),
        all_payments_after(log, receipts.take(i), after) =~= all_payments_after(log, receipts, after).take(
            all_payments_after(log, receipts.take(i), after).len() as int,
        ),
    decreases receipts.len(),
{
    if i == receipts.len() {
        assert(receipts.take(i) =~= receipts);
    } else {
        assert(receipts.drop_last().take(i) =~= receipts.take(i));
        lemma_all_payments_prefix(log, receipts.drop_last(), after, i);
    }
}

proof fn lemma_first_n_concat<A>(a: Seq<A>, b: Seq<A>, l: nat)
    requires
        a.len() <= l,
    ensures
        first_n(a + b, l) =~= a + first_n(b, (l - a.len()) as nat),
{
}

pub open spec fn cursor_pair_view(after: Option<(String, u64)>) -> Option<(Seq<char>, u64)> {
    match after {
        None => None,
        Some((id, n)) => Some((id@, n)),
    }
}

impl Ledger {
    /// At most `limit` payments over all receipts after the payment
    /// `after`, ordered by receipt id and then by number.
    pub fn all_payments_page(&self, after: &Option<(String, u64)>, limit: usize) -> (r: Vec<ReceiptPayment>)
        requires
            self.wf(),
        ensures
            r@.map_values(|p: ReceiptPayment| p@) == first_n(
                all_payments_after(self.log(), self.count_rows(), cursor_pair_view(*after)),
                limit as nat,
            ),
    {
        let ghost log = self.log();
        let ghost rows = self.count_rows();
        let ghost cur = cursor_pair_view(*after);
        let n = self.payment_counts.len();
        let mut out: Vec<ReceiptPayment> = Vec::new();
        let mut i: usize = 0;
        assert(rows.take(0) =~= Seq::<RowView<u64>>::empty());
        while i < n && out.len() < limit
            invariant
                n == rows.len(),
                rows == self.count_rows(),
                log == self.log(),
                cur == cursor_pair_view(*after),
                self.wf(),
                0 <= i <= n,
                out@.map_values(|p: ReceiptPayment| p@) == first_n(
                    all_payments_after(log, rows.take(i as int), cur),
                    limit as nat,
                ),
            decreases n - i,
        {
            let ghost before = all_payments_after(log, rows.take(i as int), cur);
            proof {
                assert(rows.take(i as int + 1).drop_last() =~= rows.take(i as int));
                assert(rows.take(i as int + 1).last() == rows[i as int]);
                assert(out@.map_values(|p: ReceiptPayment| p@).len() == out@.len());
            }
            let id = &self.payment_counts.row(i).scope;
            let (wanted, cursor): (bool, Option<u64>) = match after {
                None => (true, None),
                Some((aid, an)) => {
                    let c = compare_str(aid.as_str(), id.as_str());
                    if c == 0 {
                        (true, Some(*an))
                    } else if c < 0 {
                        (true, None)
                    } else {
                        (false, None)
                    }
                },
            };
            proof {
                assert(before.len() < limit);
                assert(out@.map_values(|p: ReceiptPayment| p@) == before);
            }
            if wanted {
                    let part = self.payments_page(id, cursor, limit - out.len());
                    let ghost whole = payments_after(log, id@, cursor);
                    assert(whole == receipt_part(log, id@, cur));
                    assert forall|q: int| 0 <= q < whole.len() implies (#[trigger] whole[q]).receipt_id == id@ by {
                        lemma_payments_after_receipt(log, id@, cursor, q);
                    }
                    let ghost prev = out@;
                    let k = part.len();
                    let mut j: usize = 0;
                    while j < k
                        invariant
                            k == part@.len(),
                            0 <= j <= k,
                            out@.len() == prev.len() + j,
                            forall|q: int| 0 <= q < prev.len() ==> #[trigger] out@[q] == prev[q],
                            forall|q: int| 0 <= q < j ==> (#[trigger] out@[prev.len() + q])@ == first_n(whole, (limit - prev.len()) as nat)[q],
                            part@.len() == first_n(whole, (limit - prev.len()) as nat).len(),
                            forall|q: int|
                                0 <= q < part@.len() ==> {
                                    let e = first_n(whole, (limit - prev.len()) as nat)[q];
                                    &&& (#[trigger] part@[q]).receipt_payment_id == e.receipt_payment_id
                                    &&& part@[q].payment@ == e.payment
                                },
                            forall|q: int| 0 <= q < whole.len() ==> (#[trigger] whole[q]).receipt_id == id@,
                        decreases k - j,
                    {
                        let entry = &part[j];
                        out.push(
                            ReceiptPayment {
                                receipt_id: id.clone(),
                                receipt_payment_id: entry.receipt_payment_id,
                                payment: entry.payment.duplicate(),
                            },
                        );
                        j = j + 1;
                    }
                    proof {
                        lemma_first_n_concat(before, whole, limit as nat);
                        let target = before + first_n(whole, (limit - before.len()) as nat);
                        assert(all_payments_after(log, rows.take(i as int + 1), cur) == before + whole);
                        assert(prev.len() == before.len());
                        let ov = out@.map_values(|p: ReceiptPayment| p@);
                        assert(ov.len() == target.len());
                        assert forall|q: int| 0 <= q < ov.len() implies ov[q] == target[q] by {
                            if q < prev.len() {
                                assert(out@[q] == prev[q]);
                                assert(prev.map_values(|p: ReceiptPayment| p@)[q] == before[q]);
                            } else {
                                assert(out@[prev.len() + (q - prev.len())]@ == first_n(whole, (limit - prev.len()) as nat)[q - prev.len()]);
                            }
                        }
                        assert(ov =~= target);
                        assert(out@.map_values(|p: ReceiptPayment| p@) =~= first_n(
                            all_payments_after(log, rows.take(i as int + 1), cur),
                            limit as nat,
                        ));
                    }
            } else {
                proof {
                    assert(receipt_part(log, id@, cur) =~= Seq::<ReceiptPaymentView>::empty());
                    assert(all_payments_after(log, rows.take(i as int + 1), cur) =~= before);
                }
            }
            i = i + 1;
        }
        proof {
            lemma_all_payments_prefix(log, rows, cur, i as int);
            if i == n {
                assert(rows.take(i as int) =~= rows);
            }
        }
        out
    }
}
} // verus!

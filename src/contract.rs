use vstd::prelude::*;

use crate::checks::{check_native_denom, check_nonpayable, valid_native_denom};
use crate::denom::{decode_token, denom_to_string, encode_token, string_to_denom, TokenId, TokenIdView};
use crate::error::ContractError;
use crate::ledger::{
    after_payment, all_payments_after, cursor_pair_view, first_n, payments_after, unauthorized,
    would_overflow, Ledger, Log,
};
use crate::msg::{
    Coin, Cw20ReceiverMsg, InstantiateMsg, ListIdsForPayerResponse, ListPaymentsResponse,
    ListPaymentsToIdResponse, ReceiptPayment,
    ListTotalsPaidByPayerResponse, ListTotalsPaidToIdResponse, OutputResponse, ReceiptPaymentView,
    Total, TransferInstruction,
};
use crate::relation::{opt_view, page};
use crate::state::{BlockContext, BlockContextView};

verus! {

/// Page size of a listing that names none.
pub const DEFAULT_LIMIT: u32 = 10;

/// Largest page size of a listing.
pub const MAX_LIMIT: u32 = 30;

/// The page size that a listing uses for the requested `limit`.
pub open spec fn page_limit(limit: Option<u32>) -> nat {
    let l = match limit {
        Some(l) => l,
        None => DEFAULT_LIMIT,
    };
    if l < MAX_LIMIT {
        l as nat
    } else {
        MAX_LIMIT as nat
    }
}

fn effective_limit(limit: Option<u32>) -> (r: usize)
    ensures
        r == page_limit(limit),
{
    let l = match limit {
        Some(l) => l,
        None => DEFAULT_LIMIT,
    };
    if l < MAX_LIMIT {
        l as usize
    } else {
        MAX_LIMIT as usize
    }
}

/// The log after paying every coin of `funds`, in order, into receipt `id`,
/// or `None` where one of them is refused.
pub open spec fn after_payments(
    log: Log,
    id: Seq<char>,
    payer: Seq<char>,
    block: BlockContextView,
    funds: Seq<(Seq<char>, u128)>,
) -> Option<Log>
    decreases funds.len(),
{
    if funds.len() == 0 {
        Some(log)
    } else {
        match after_payments(log, id, payer, block, funds.drop_last()) {
            None => None,
            Some(l) => after_payment(
                l,
                id,
                payer,
                block,
                TokenIdView::Native(funds.last().0),
                funds.last().1,
            ),
        }
    }
}

proof fn lemma_after_payments_refused(
    log: Log,
    id: Seq<char>,
    payer: Seq<char>,
    block: BlockContextView,
    funds: Seq<(Seq<char>, u128)>,
    i: int,
)
    requires
        0 <= i <= funds.len(),
        after_payments(log, id, payer, block, funds.take(i)) is None,
    ensures
        after_payments(log, id, payer, block, funds) is None,
    decreases funds.len() - i,
{
    if i == funds.len() {
        assert(funds.take(i) =~= funds);
    } else {
        assert(funds.take(i + 1).drop_last() =~= funds.take(i));
        lemma_after_payments_refused(log, id, payer, block, funds, i + 1);
    }
}

/// A ledger that forwards everything to the output address of `msg`.
pub fn instantiate(msg: InstantiateMsg) -> (r: Ledger)
    ensures
        r.wf(),
        r.output_view() == msg.output@,
        r.log() == Seq::<ReceiptPaymentView>::empty(),
{
    Ledger::new(msg.output)
}

/// Records a native payment of each coin in `funds`, in order, by `sender`
/// into receipt `id`, and returns the instructions that forward them to the
/// output address. Either every coin is recorded or none is.
pub fn execute_pay(
    ledger: &mut Ledger,
    block: &BlockContext,
    sender: &String,
    id: &String,
    funds: &Vec<Coin>,
) -> (r: Result<Vec<TransferInstruction>, ContractError>)
    requires
        old(ledger).wf(),
    ensures
        final(ledger).wf(),
        r is Ok <==> {
            &&& funds@.len() > 0
            &&& forall|j: int| 0 <= j < funds@.len() ==> valid_native_denom(#[trigger] funds@[j].denom@)
            &&& after_payments(
                old(ledger).log(),
                id@,
                sender@,
                block@,
                funds@.map_values(|c: Coin| c@),
            ) is Some
        },
        r matches Err(ContractError::MissingPayment) <==> funds@.len() == 0,
        r matches Err(ContractError::Denom(_)) <==> funds@.len() > 0 && exists|j: int|
            0 <= j < funds@.len() && !valid_native_denom(#[trigger] funds@[j].denom@),
        r matches Err(ContractError::UnauthorizedPayer) <==> {
            &&& funds@.len() > 0
            &&& forall|j: int| 0 <= j < funds@.len() ==> valid_native_denom(#[trigger] funds@[j].denom@)
            &&& unauthorized(old(ledger).log(), id@, sender@)
        },
        r matches Err(ContractError::Overflow) <==> {
            &&& funds@.len() > 0
            &&& forall|j: int| 0 <= j < funds@.len() ==> valid_native_denom(#[trigger] funds@[j].denom@)
            &&& !unauthorized(old(ledger).log(), id@, sender@)
            &&& after_payments(
                old(ledger).log(),
                id@,
                sender@,
                block@,
                funds@.map_values(|c: Coin| c@),
            ) is None
        },
        r is Err ==> *final(ledger) == *old(ledger),
        r matches Ok(ts) ==> {
            &&& after_payments(old(ledger).log(), id@, sender@, block@, funds@.map_values(|c: Coin| c@))
                == Some(final(ledger).log())
            &&& final(ledger).output_view() == old(ledger).output_view()
            &&& ts@.len() == funds@.len()
            &&& forall|j: int|
                0 <= j < ts@.len() ==> (#[trigger] ts@[j])@ == (
                    TokenIdView::Native(funds@[j].denom@),
                    funds@[j].amount,
                    old(ledger).output_view(),
                )
        },
{
    let ghost fv = funds@.map_values(|c: Coin| c@);
    let ghost log0 = ledger.log();
    let n = funds.len();
    if n == 0 {
        return Err(ContractError::MissingPayment);
    }
    let mut i: usize = 0;
    while i < n
        invariant
            n == funds@.len(),
            0 <= i <= n,
            old(ledger).wf(),
            *ledger == *old(ledger),
            forall|j: int| 0 <= j < i ==> valid_native_denom(#[trigger] funds@[j].denom@),
        decreases n - i,
    {
        match check_native_denom(&funds[i].denom) {
            Ok(()) => {},
            Err(e) => {
                return Err(ContractError::Denom(e));
            },
        }
        i = i + 1;
    }
    let mut work = ledger.duplicate();
    let mut out: Vec<TransferInstruction> = Vec::new();
    let mut i: usize = 0;
    while i < n
        invariant
            n == funds@.len(),
            fv == funds@.map_values(|c: Coin| c@),
            log0 == ledger.log(),
            old(ledger).wf(),
            *ledger == *old(ledger),
            forall|j: int| 0 <= j < n ==> valid_native_denom(#[trigger] funds@[j].denom@),
            0 <= i <= n,
            work.wf(),
            work.output_view() == ledger.output_view(),
            after_payments(log0, id@, sender@, block@, fv.take(i as int)) == Some(work.log()),
            i > 0 ==> !unauthorized(work.log(), id@, sender@),
            i > 0 ==> !unauthorized(log0, id@, sender@),
            i == 0 ==> work.log() == log0,
            out@.len() == i,
            forall|j: int|
                0 <= j < i ==> (#[trigger] out@[j])@ == (
                    TokenIdView::Native(funds@[j].denom@),
                    funds@[j].amount,
                    ledger.output_view(),
                ),
        decreases n - i,
    {
        let ghost before = work.log();
        proof {
            assert(fv.take(i as int + 1).drop_last() =~= fv.take(i as int));
            assert(fv[i as int] == funds@[i as int]@);
            assert(fv.take(i as int + 1).last() == fv[i as int]);
        }
        let denom = TokenId::Native(funds[i].denom.clone());
        match work.record_payment(block, id, &denom, sender, funds[i].amount) {
            Ok(t) => {
                out.push(t);
                proof {
                    let e = work.log().last();
                    assert(work.log()[work.log().len() - 1] == e);
                    assert(crate::ledger::paid_into(work.log(), sender@, id@));
                }
            },
            Err(e) => {
                proof {
                    lemma_after_payments_refused(log0, id@, sender@, block@, fv, i as int + 1);
                }
                return Err(e);
            },
        }
        i = i + 1;
    }
    proof {
        assert(fv.take(n as int) =~= fv);
    }
    *ledger = work;
    Ok(out)
}

/// Refuses a message from `sender` that carries native funds.
pub fn nonpayable(sender: &String, funds: &Vec<Coin>) -> (r: Result<(), ContractError>)
    ensures
        r is Ok <==> funds@.len() == 0,
        r is Err ==> r matches Err(ContractError::PaymentError(_)),
{
    match check_nonpayable(sender, funds) {
        Ok(()) => Ok(()),
        Err(e) => Err(ContractError::PaymentError(e)),
    }
}

/// Records a payment of `amount` of the token contract `token` into the
/// receipt that `msg` names, on behalf of `payer`, the account that sent the
/// tokens. The message that carries the tokens may carry no native funds.
pub fn execute_receive_cw20(
    ledger: &mut Ledger,
    block: &BlockContext,
    token: &String,
    funds: &Vec<Coin>,
    payer: &String,
    amount: u128,
    msg: &Cw20ReceiverMsg,
) -> (r: Result<TransferInstruction, ContractError>)
    requires
        old(ledger).wf(),
    ensures
        final(ledger).wf(),
        r matches Err(ContractError::PaymentError(_)) <==> funds@.len() > 0,
        r is Err ==> *final(ledger) == *old(ledger),
        match msg {
            Cw20ReceiverMsg::Pay { id } => {
                &&& (r matches Err(ContractError::UnauthorizedPayer)) <==> funds@.len() == 0 && unauthorized(
                    old(ledger).log(),
                    id@,
                    payer@,
                )
                &&& r is Ok <==> funds@.len() == 0 && after_payment(
                    old(ledger).log(),
                    id@,
                    payer@,
                    block@,
                    TokenIdView::Cw20(token@),
                    amount,
                ) is Some
                &&& (r matches Err(ContractError::Overflow)) <==> funds@.len() == 0 && !unauthorized(
                    old(ledger).log(),
                    id@,
                    payer@,
                ) && would_overflow(old(ledger).log(), id@, payer@, TokenIdView::Cw20(token@), amount)
                &&& (r matches Ok(t) ==> {
                    &&& Some(final(ledger).log()) == after_payment(
                        old(ledger).log(),
                        id@,
                        payer@,
                        block@,
                        TokenIdView::Cw20(token@),
                        amount,
                    )
                    &&& final(ledger).output_view() == old(ledger).output_view()
                    &&& t@ == (TokenIdView::Cw20(token@), amount, old(ledger).output_view())
                })
            },
        },
{
    match nonpayable(token, funds) {
        Ok(()) => {},
        Err(e) => {
            return Err(e);
        },
    }
    match msg {
        Cw20ReceiverMsg::Pay { id } => {
            let denom = TokenId::Cw20(token.clone());
            ledger.record_payment(block, id, &denom, payer, amount)
        },
    }
}

/// Replaces the output address. Payments already forwarded are not touched.
pub fn execute_update_output(ledger: &mut Ledger, output: String)
    requires
        old(ledger).wf(),
    ensures
        final(ledger).wf(),
        final(ledger).output_view() == output@,
        final(ledger).log() == old(ledger).log(),
        final(ledger).receipt_total_rows() == old(ledger).receipt_total_rows(),
        final(ledger).payer_receipt_rows() == old(ledger).payer_receipt_rows(),
        final(ledger).payer_total_rows() == old(ledger).payer_total_rows(),
{
    ledger.set_output(output);
}

pub fn query_output(ledger: &Ledger) -> (r: OutputResponse)
    ensures
        r.output@ == ledger.output_view(),
{
    OutputResponse { output: ledger.output().clone() }
}

/// Payments to receipt `id` numbered after `start_after`, in ascending
/// order of number.
pub fn query_list_payments_to_id(
    ledger: &Ledger,
    id: String,
    start_after: Option<u64>,
    limit: Option<u32>,
) -> (r: ListPaymentsToIdResponse)
    requires
        ledger.wf(),
    ensures
        r.payments@.len() == first_n(payments_after(ledger.log(), id@, start_after), page_limit(limit)).len(),
        forall|i: int|
            0 <= i < r.payments@.len() ==> {
                let e = first_n(payments_after(ledger.log(), id@, start_after), page_limit(limit))[i];
                &&& (#[trigger] r.payments@[i]).receipt_payment_id == e.receipt_payment_id
                &&& r.payments@[i].payment@ == e.payment
            },
{
    let payments = ledger.payments_page(&id, start_after, effective_limit(limit));
    ListPaymentsToIdResponse { payments }
}

/// Payments over all receipts after the payment `start_after` (a receipt
/// id and a payment number), ordered by receipt id and then by number.
pub fn query_list_payments(
    ledger: &Ledger,
    start_after: Option<(String, u64)>,
    limit: Option<u32>,
) -> (r: ListPaymentsResponse)
    requires
        ledger.wf(),
    ensures
        r.payments@.map_values(|p: ReceiptPayment| p@) == first_n(
            all_payments_after(ledger.log(), ledger.count_rows(), cursor_pair_view(start_after)),
            page_limit(limit),
        ),
{
    let payments = ledger.all_payments_page(&start_after, effective_limit(limit));
    ListPaymentsResponse { payments }
}

/// The totals of a page, decoded; a key that does not decode is left out.
pub open spec fn decoded_totals(pg: Seq<(Seq<char>, u128)>) -> Seq<(TokenIdView, u128)>
    decreases pg.len(),
{
    if pg.len() == 0 {
        Seq::empty()
    } else {
        let prev = decoded_totals(pg.drop_last());
        match decode_token(pg.last().0) {
            Some(t) => prev.push((t, pg.last().1)),
            None => prev,
        }
    }
}

pub open spec fn cursor_view(o: Option<String>) -> Option<Seq<char>> {
    match o {
        Some(s) => Some(s@),
        None => None,
    }
}

/// The cursor key of an optional token identifier.
pub open spec fn token_cursor(t: Option<TokenId>) -> Option<Seq<char>> {
    match t {
        Some(t) => Some(encode_token(t@)),
        None => None,
    }
}

fn decode_totals(rows: Vec<(String, u128)>) -> (r: Vec<Total>)
    ensures
        r@.map_values(|t: Total| t@) == decoded_totals(rows@.map_values(|p: (String, u128)| (p.0@, p.1))),
{
    let ghost pv = rows@.map_values(|p: (String, u128)| (p.0@, p.1));
    let mut out: Vec<Total> = Vec::new();
    let n = rows.len();
    let mut i: usize = 0;
    while i < n
        invariant
            n == rows@.len(),
            pv == rows@.map_values(|p: (String, u128)| (p.0@, p.1)),
            0 <= i <= n,
            out@.map_values(|t: Total| t@) == decoded_totals(pv.take(i as int)),
        decreases n - i,
    {
        proof {
            assert(pv.take(i as int + 1).drop_last() =~= pv.take(i as int));
            assert(pv.take(i as int + 1).last() == pv[i as int]);
        }
        let ghost prev = out@;
        match string_to_denom(rows[i].0.clone()) {
            Some(denom) => {
                out.push(Total { denom, amount: rows[i].1 });
                proof {
                    assert(out@.map_values(|t: Total| t@) =~= prev.map_values(|t: Total| t@).push(
                        out@.last()@,
                    ));
                }
            },
            None => {},
        }
        i = i + 1;
    }
    proof {
        assert(pv.take(n as int) =~= pv);
    }
    out
}

/// Totals paid to receipt `id`, one per token, after the token
/// `start_after`, in ascending order of token key.
pub fn query_list_totals_paid_to_id(
    ledger: &Ledger,
    id: String,
    start_after: Option<TokenId>,
    limit: Option<u32>,
) -> (r: ListTotalsPaidToIdResponse)
    requires
        ledger.wf(),
    ensures
        r.totals@.map_values(|t: Total| t@) == decoded_totals(
            page(ledger.receipt_total_rows(), id@, token_cursor(start_after), page_limit(limit)),
        ),
{
    let cursor = match &start_after {
        Some(t) => Some(denom_to_string(t)),
        None => None,
    };
    let c = cursor.as_ref();
    let rows = ledger.receipt_totals_page(&id, c, effective_limit(limit));
    proof {
        assert(opt_view(c) == token_cursor(start_after));
        assert(rows@.map_values(|p: (String, u128)| (p.0@, p.1)) =~= page(
            ledger.receipt_total_rows(),
            id@,
            token_cursor(start_after),
            page_limit(limit),
        ));
    }
    ListTotalsPaidToIdResponse { totals: decode_totals(rows) }
}

/// Receipt ids that `payer` may pay into, after `start_after`, in
/// ascending order.
pub fn query_list_ids_for_payer(
    ledger: &Ledger,
    payer: String,
    start_after: Option<String>,
    limit: Option<u32>,
) -> (r: ListIdsForPayerResponse)
    requires
        ledger.wf(),
    ensures
        r.ids@.map_values(|s: String| s@) == page(
            ledger.payer_receipt_rows(),
            payer@,
            cursor_view(start_after),
            page_limit(limit),
        ).map_values(|p: (Seq<char>, ())| p.0),
{
    let c = start_after.as_ref();
    let rows = ledger.payer_receipts_page(&payer, c, effective_limit(limit));
    assert(opt_view(c) == cursor_view(start_after));
    let ghost pg = page(ledger.payer_receipt_rows(), payer@, cursor_view(start_after), page_limit(limit));
    let mut ids: Vec<String> = Vec::new();
    let n = rows.len();
    let mut i: usize = 0;
    while i < n
        invariant
            n == rows@.len(),
            n == pg.len(),
            forall|j: int| 0 <= j < n ==> (#[trigger] rows@[j]).0@ == pg[j].0,
            0 <= i <= n,
            ids@.len() == i,
            forall|j: int| 0 <= j < i ==> (#[trigger] ids@[j])@ == pg[j].0,
        decreases n - i,
    {
        ids.push(rows[i].0.clone());
        i = i + 1;
    }
    assert(ids@.map_values(|s: String| s@) =~= pg.map_values(|p: (Seq<char>, ())| p.0));
    ListIdsForPayerResponse { ids }
}

/// Totals paid by `payer` over all receipts, one per token, after the
/// token `start_after`, in ascending order of token key.
pub fn query_list_totals_paid_by_payer(
    ledger: &Ledger,
    payer: String,
    start_after: Option<TokenId>,
    limit: Option<u32>,
) -> (r: ListTotalsPaidByPayerResponse)
    requires
        ledger.wf(),
    ensures
        r.totals@.map_values(|t: Total| t@) == decoded_totals(
            page(ledger.payer_total_rows(), payer@, token_cursor(start_after), page_limit(limit)),
        ),
{
    let cursor = match &start_after {
        Some(t) => Some(denom_to_string(t)),
        None => None,
    };
    let c = cursor.as_ref();
    let rows = ledger.payer_totals_page(&payer, c, effective_limit(limit));
    proof {
        assert(opt_view(c) == token_cursor(start_after));
        assert(rows@.map_values(|p: (String, u128)| (p.0@, p.1)) =~= page(
            ledger.payer_total_rows(),
            payer@,
            token_cursor(start_after),
            page_limit(limit),
        ));
    }
    ListTotalsPaidByPayerResponse { totals: decode_totals(rows) }
}

} // verus!

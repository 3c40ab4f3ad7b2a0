use cw_denom::DenomError;
use cw_receipt::contract::{
    execute_pay, execute_receive_cw20, execute_update_output, instantiate, query_list_ids_for_payer,
    query_list_payments,
    query_list_payments_to_id, query_list_totals_paid_by_payer, query_list_totals_paid_to_id,
    query_output,
};
use cw_receipt::denom::{denom_to_string, string_to_denom, TokenId};
use cw_receipt::ledger::Ledger;
use cw_receipt::msg::{Coin, Cw20ReceiverMsg, InstantiateMsg, Total, TransferInstruction};
use cw_receipt::state::BlockContext;
use cw_receipt::ContractError;
use cw_utils::PaymentError;

fn block() -> BlockContext {
    BlockContext {
        height: 7,
        time_nanos: 1_000,
        chain_id: "testing".to_string(),
    }
}

fn ledger() -> Ledger {
    instantiate(InstantiateMsg {
        owner: None,
        output: "out".to_string(),
    })
}

fn coin(amount: u128, denom: &str) -> Coin {
    Coin {
        denom: denom.to_string(),
        amount,
    }
}

fn pay(l: &mut Ledger, payer: &str, id: &str, funds: Vec<Coin>) -> Result<Vec<TransferInstruction>, ContractError> {
    execute_pay(l, &block(), &payer.to_string(), &id.to_string(), &funds)
}

fn native(d: &str) -> TokenId {
    TokenId::Native(d.to_string())
}

#[test]
fn codec_encodes_with_tags() {
    assert_eq!(denom_to_string(&native("uatom")), "nuatom");
    assert_eq!(denom_to_string(&TokenId::Cw20("juno1xyz".to_string())), "cjuno1xyz");
}

#[test]
fn codec_round_trips() {
    for t in [
        native("uwasm"),
        native(""),
        TokenId::Cw20("contract1".to_string()),
        TokenId::Cw20("ĉontract".to_string()),
    ] {
        let s = denom_to_string(&t);
        assert_eq!(string_to_denom(s), Some(t));
    }
}

#[test]
fn codec_rejects_unknown_tags() {
    assert_eq!(string_to_denom("xuwasm".to_string()), None);
    assert_eq!(string_to_denom("".to_string()), None);
    assert_eq!(string_to_denom("éabc".to_string()), None);
    assert_eq!(string_to_denom("n".to_string()), Some(native("")));
}

#[test]
fn scenario_first_deposit() {
    let mut l = ledger();
    let sent = pay(&mut l, "first_payer", "r1", vec![coin(2, "uwasm")]).unwrap();
    assert_eq!(
        sent,
        vec![TransferInstruction {
            denom: native("uwasm"),
            amount: 2,
            recipient: "out".to_string(),
        }]
    );
    let payments = query_list_payments_to_id(&l, "r1".to_string(), None, None).payments;
    assert_eq!(payments.len(), 1);
    assert_eq!(payments[0].receipt_payment_id, 0);
    assert_eq!(payments[0].payment.amount, 2);
    assert_eq!(payments[0].payment.payer, "first_payer");
    assert_eq!(query_list_ids_for_payer(&l, "first_payer".to_string(), None, None).ids, vec!["r1".to_string()]);
}

#[test]
fn scenario_other_payer_refused() {
    let mut l = ledger();
    pay(&mut l, "first_payer", "r1", vec![coin(2, "uwasm")]).unwrap();
    let err = pay(&mut l, "second_payer", "r1", vec![coin(2, "uwasm")]).unwrap_err();
    assert_eq!(err, ContractError::UnauthorizedPayer);
    assert_eq!(query_list_payments_to_id(&l, "r1".to_string(), None, None).payments.len(), 1);
    assert!(query_list_ids_for_payer(&l, "second_payer".to_string(), None, None).ids.is_empty());
    assert!(query_list_totals_paid_by_payer(&l, "second_payer".to_string(), None, None).totals.is_empty());
}

#[test]
fn scenario_second_deposit_accumulates() {
    let mut l = ledger();
    pay(&mut l, "first_payer", "r1", vec![coin(2, "uwasm")]).unwrap();
    pay(&mut l, "first_payer", "r1", vec![coin(4, "uwasm")]).unwrap();
    let payments = query_list_payments_to_id(&l, "r1".to_string(), None, None).payments;
    let seen: Vec<(u64, u128)> = payments.iter().map(|p| (p.receipt_payment_id, p.payment.amount)).collect();
    assert_eq!(seen, vec![(0, 2), (1, 4)]);
    let total = vec![Total {
        denom: native("uwasm"),
        amount: 6,
    }];
    assert_eq!(query_list_totals_paid_to_id(&l, "r1".to_string(), None, None).totals, total);
    assert_eq!(query_list_totals_paid_by_payer(&l, "first_payer".to_string(), None, None).totals, total);
}

#[test]
fn scenario_unused_receipt_has_no_totals() {
    let mut l = ledger();
    pay(&mut l, "first_payer", "r1", vec![coin(2, "uwasm")]).unwrap();
    assert!(query_list_totals_paid_to_id(&l, "unused".to_string(), None, None).totals.is_empty());
}

#[test]
fn numbering_is_sequential_per_receipt() {
    let mut l = ledger();
    for (i, id) in ["a", "b", "a", "a", "b"].iter().enumerate() {
        pay(&mut l, "p", id, vec![coin(i as u128 + 1, "uwasm")]).unwrap();
    }
    let a: Vec<u64> = query_list_payments_to_id(&l, "a".to_string(), None, None)
        .payments
        .iter()
        .map(|p| p.receipt_payment_id)
        .collect();
    let b: Vec<u64> = query_list_payments_to_id(&l, "b".to_string(), None, None)
        .payments
        .iter()
        .map(|p| p.receipt_payment_id)
        .collect();
    assert_eq!(a, vec![0, 1, 2]);
    assert_eq!(b, vec![0, 1]);
}

#[test]
fn totals_equal_sums_of_log() {
    let mut l = ledger();
    let deposits = [("p", "r1", "uatom", 5u128), ("p", "r2", "uatom", 7), ("q", "r3", "uwasm", 11), ("p", "r1", "uwasm", 13)];
    for (payer, id, denom, amount) in deposits {
        pay(&mut l, payer, id, vec![coin(amount, denom)]).unwrap();
    }
    for payer in ["p", "q"] {
        for t in query_list_totals_paid_by_payer(&l, payer.to_string(), None, None).totals {
            let expected: u128 = deposits
                .iter()
                .filter(|d| d.0 == payer && native(d.2) == t.denom)
                .map(|d| d.3)
                .sum();
            assert_eq!(t.amount, expected);
        }
    }
    for id in ["r1", "r2", "r3"] {
        let totals = query_list_totals_paid_to_id(&l, id.to_string(), None, None).totals;
        let mut recomputed: Vec<Total> = vec![];
        for p in query_list_payments_to_id(&l, id.to_string(), None, None).payments {
            match recomputed.iter_mut().find(|t| t.denom == p.payment.denom) {
                Some(t) => t.amount += p.payment.amount,
                None => recomputed.push(Total {
                    denom: p.payment.denom,
                    amount: p.payment.amount,
                }),
            }
        }
        recomputed.sort_by_key(|t| denom_to_string(&t.denom));
        assert_eq!(totals, recomputed);
    }
    assert_eq!(
        query_list_totals_paid_by_payer(&l, "p".to_string(), None, None).totals,
        vec![
            Total {
                denom: native("uatom"),
                amount: 12,
            },
            Total {
                denom: native("uwasm"),
                amount: 13,
            },
        ]
    );
}

#[test]
fn pages_of_one_chain_to_full_listing() {
    let mut l = ledger();
    for d in ["uzz", "uaa", "umm", "ubb"] {
        pay(&mut l, "p", "r", vec![coin(1, d)]).unwrap();
    }
    let full = query_list_totals_paid_to_id(&l, "r".to_string(), None, None).totals;
    assert_eq!(full.len(), 4);
    let mut chained: Vec<Total> = vec![];
    let mut cursor: Option<TokenId> = None;
    loop {
        let page = query_list_totals_paid_to_id(&l, "r".to_string(), cursor, Some(1)).totals;
        assert!(page.len() <= 1);
        match page.into_iter().next() {
            Some(t) => {
                cursor = Some(t.denom.clone());
                chained.push(t);
            }
            None => break,
        }
    }
    assert_eq!(chained, full);
    let names: Vec<String> = full.iter().map(|t| denom_to_string(&t.denom)).collect();
    assert_eq!(names, vec!["nuaa", "nubb", "numm", "nuzz"]);

    for id in ["r9", "r1", "r5"] {
        pay(&mut l, "p", id, vec![coin(1, "uwasm")]).unwrap();
    }
    let mut ids: Vec<String> = vec![];
    let mut cursor: Option<String> = None;
    loop {
        let page = query_list_ids_for_payer(&l, "p".to_string(), cursor, Some(1)).ids;
        match page.into_iter().next() {
            Some(id) => {
                cursor = Some(id.clone());
                ids.push(id);
            }
            None => break,
        }
    }
    assert_eq!(ids, query_list_ids_for_payer(&l, "p".to_string(), None, None).ids);
    assert_eq!(ids, vec!["r", "r1", "r5", "r9"]);
}

#[test]
fn payments_listing_resumes_after_cursor() {
    let mut l = ledger();
    for amount in 1..=5u128 {
        pay(&mut l, "p", "r", vec![coin(amount, "uwasm")]).unwrap();
    }
    let page = query_list_payments_to_id(&l, "r".to_string(), Some(1), Some(2)).payments;
    let ids: Vec<u64> = page.iter().map(|p| p.receipt_payment_id).collect();
    assert_eq!(ids, vec![2, 3]);
}

#[test]
fn page_sizes_default_and_cap() {
    let mut l = ledger();
    for i in 0..40u128 {
        pay(&mut l, "p", "r", vec![coin(i + 1, "uwasm")]).unwrap();
    }
    assert_eq!(query_list_payments_to_id(&l, "r".to_string(), None, None).payments.len(), 10);
    assert_eq!(query_list_payments_to_id(&l, "r".to_string(), None, Some(100)).payments.len(), 30);
    assert_eq!(query_list_payments_to_id(&l, "r".to_string(), None, Some(0)).payments.len(), 0);
}

#[test]
fn invalid_native_denom_is_refused() {
    let mut l = ledger();
    let err = pay(&mut l, "p", "r", vec![coin(1, "ab")]).unwrap_err();
    assert_eq!(err, ContractError::Denom(DenomError::NativeDenomLength { len: 2 }));
    let err = pay(&mut l, "p", "r", vec![coin(1, "1abc")]).unwrap_err();
    assert_eq!(err, ContractError::Denom(DenomError::NonAlphabeticAscii));
    let err = pay(&mut l, "p", "r", vec![coin(1, "uwasm"), coin(1, "ab*c")]).unwrap_err();
    assert_eq!(err, ContractError::Denom(DenomError::InvalidCharacter { c: '*' }));
    assert!(query_list_payments_to_id(&l, "r".to_string(), None, None).payments.is_empty());
    pay(&mut l, "p", "r", vec![coin(1, "ibc/27394FB0:a.b_c-d")]).unwrap();
}

#[test]
fn cw20_payment_refuses_native_funds() {
    let mut l = ledger();
    let err = execute_receive_cw20(
        &mut l,
        &block(),
        &"token".to_string(),
        &vec![coin(1, "uwasm")],
        &"p".to_string(),
        5,
        &Cw20ReceiverMsg::Pay { id: "r".to_string() },
    )
    .unwrap_err();
    assert_eq!(err, ContractError::PaymentError(PaymentError::NonPayable {}));
    assert!(query_list_payments_to_id(&l, "r".to_string(), None, None).payments.is_empty());
}

#[test]
fn overflowing_total_is_refused_atomically() {
    let mut l = ledger();
    pay(&mut l, "p", "r", vec![coin(u128::MAX - 1, "uwasm")]).unwrap();
    let err = pay(&mut l, "p", "r", vec![coin(1, "uatom"), coin(2, "uwasm")]).unwrap_err();
    assert_eq!(err, ContractError::Overflow);
    assert_eq!(query_list_payments_to_id(&l, "r".to_string(), None, None).payments.len(), 1);
    assert_eq!(query_list_totals_paid_to_id(&l, "r".to_string(), None, None).totals.len(), 1);
    pay(&mut l, "p", "r", vec![coin(1, "uwasm")]).unwrap();
}

#[test]
fn several_coins_in_one_deposit() {
    let mut l = ledger();
    let sent = pay(&mut l, "p", "r", vec![coin(3, "uatom"), coin(4, "uwasm")]).unwrap();
    assert_eq!(sent.len(), 2);
    assert_eq!(sent[1].denom, native("uwasm"));
    let payments = query_list_payments_to_id(&l, "r".to_string(), None, None).payments;
    assert_eq!(payments[1].receipt_payment_id, 1);
    assert_eq!(payments[1].payment.denom, native("uwasm"));
}

#[test]
fn update_output_redirects_later_payments() {
    let mut l = ledger();
    pay(&mut l, "p", "r", vec![coin(1, "uwasm")]).unwrap();
    execute_update_output(&mut l, "new_output".to_string());
    assert_eq!(query_output(&l).output, "new_output");
    let sent = pay(&mut l, "p", "r", vec![coin(1, "uwasm")]).unwrap();
    assert_eq!(sent[0].recipient, "new_output");
    assert_eq!(query_list_payments_to_id(&l, "r".to_string(), None, None).payments.len(), 2);
}

#[test]
fn all_payments_ordered_by_receipt_then_number() {
    let mut l = ledger();
    pay(&mut l, "p", "rb", vec![coin(1, "uwasm")]).unwrap();
    pay(&mut l, "q", "ra", vec![coin(2, "uwasm")]).unwrap();
    pay(&mut l, "p", "rb", vec![coin(3, "uwasm")]).unwrap();
    pay(&mut l, "q", "ra", vec![coin(4, "uwasm")]).unwrap();
    let listed: Vec<(String, u64, u128)> = query_list_payments(&l, None, None)
        .payments
        .into_iter()
        .map(|p| (p.receipt_id, p.receipt_payment_id, p.payment.amount))
        .collect();
    assert_eq!(
        listed,
        vec![
            ("ra".to_string(), 0, 2),
            ("ra".to_string(), 1, 4),
            ("rb".to_string(), 0, 1),
            ("rb".to_string(), 1, 3),
        ]
    );
    let after: Vec<(String, u64)> = query_list_payments(&l, Some(("ra".to_string(), 1)), Some(1))
        .payments
        .into_iter()
        .map(|p| (p.receipt_id, p.receipt_payment_id))
        .collect();
    assert_eq!(after, vec![("rb".to_string(), 0)]);
}

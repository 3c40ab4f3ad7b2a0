use cw_receipt::contract::{
    execute_pay, execute_receive_cw20, execute_update_output, instantiate, query_output, query_list_ids_for_payer, query_list_payments,
    query_list_payments_to_id, query_list_totals_paid_by_payer, query_list_totals_paid_to_id,
};
use cw_receipt::denom::TokenId;
use cw_receipt::ledger::Ledger;
use cw_receipt::msg::{
    Coin, Cw20ReceiverMsg, InstantiateMsg, ListIdsForPayerResponse, ListPaymentsResponse, OutputResponse,
    ListPaymentsToIdResponse, ReceiptPayment,
    ListTotalsPaidByPayerResponse, ListTotalsPaidToIdResponse, ReceiptPaymentWithoutId, Total,
    TransferInstruction,
};
use cw_receipt::state::{BlockContext, Payment};
use cw_receipt::ContractError;

const OUTPUT: &str = "output";
const OWNER: &str = "owner";
const PAYER: &str = "payer";
const OTHER_PAYER: &str = "other_payer";
const NATIVE_DENOM: &str = "uwasm";
const RECEIPT_ID: &str = "receipt_id";
const CW20: &str = "contract1";

fn block() -> BlockContext {
    BlockContext {
        height: 12345,
        time_nanos: 1_571_797_419_879_305_533,
        chain_id: "cosmos-testnet-14002".to_string(),
    }
}

fn setup() -> Ledger {
    instantiate(InstantiateMsg {
        owner: Some(OWNER.to_string()),
        output: OUTPUT.to_string(),
    })
}

fn coins(amount: u128, denom: &str) -> Vec<Coin> {
    vec![Coin {
        denom: denom.to_string(),
        amount,
    }]
}

/// Amount of `denom` that the instructions so far sent to `who`.
fn balance(sent: &[TransferInstruction], who: &str, denom: &TokenId) -> u128 {
    sent.iter()
        .filter(|t| t.recipient == who && &t.denom == denom)
        .map(|t| t.amount)
        .sum()
}

fn pay_native(ledger: &mut Ledger, payer: &str, id: &str, funds: Vec<Coin>) -> Result<Vec<TransferInstruction>, ContractError> {
    execute_pay(ledger, &block(), &payer.to_string(), &id.to_string(), &funds)
}

fn pay_cw20(ledger: &mut Ledger, payer: &str, id: &str, amount: u128) -> Result<TransferInstruction, ContractError> {
    execute_receive_cw20(
        ledger,
        &block(),
        &CW20.to_string(),
        &vec![],
        &payer.to_string(),
        amount,
        &Cw20ReceiverMsg::Pay { id: id.to_string() },
    )
}

fn payments_to(ledger: &Ledger, id: &str) -> ListPaymentsToIdResponse {
    query_list_payments_to_id(ledger, id.to_string(), None, None)
}

fn all_payments(ledger: &Ledger) -> ListPaymentsResponse {
    query_list_payments(ledger, None, None)
}

fn ids_for(ledger: &Ledger, payer: &str) -> ListIdsForPayerResponse {
    query_list_ids_for_payer(ledger, payer.to_string(), None, None)
}

fn totals_to(ledger: &Ledger, id: &str) -> ListTotalsPaidToIdResponse {
    query_list_totals_paid_to_id(ledger, id.to_string(), None, None)
}

fn totals_by(ledger: &Ledger, payer: &str) -> ListTotalsPaidByPayerResponse {
    query_list_totals_paid_by_payer(ledger, payer.to_string(), None, None)
}

fn native() -> TokenId {
    TokenId::Native(NATIVE_DENOM.to_string())
}

fn cw20() -> TokenId {
    TokenId::Cw20(CW20.to_string())
}

fn payment(payer: &str, denom: TokenId, amount: u128) -> Payment {
    Payment {
        payer: payer.to_string(),
        block: block(),
        denom,
        amount,
    }
}

#[test]
fn test_instantiate() {
    let ledger = setup();
    assert_eq!(ledger.output(), OUTPUT);
}

#[test]
fn test_updatable_output() {
    let mut ledger = setup();

    // Ensure output is set.
    assert_eq!(
        query_output(&ledger),
        OutputResponse {
            output: OUTPUT.to_string()
        }
    );

    // Update output. The owner check on the sender is made by the
    // ownership module before the ledger is called.
    let new_output = "new_output";
    execute_update_output(&mut ledger, new_output.to_string());

    // Ensure output is updated.
    assert_eq!(
        query_output(&ledger),
        OutputResponse {
            output: new_output.to_string()
        }
    );

    // Ensure a later payment is forwarded to the new output.
    let sent = pay_native(&mut ledger, PAYER, RECEIPT_ID, coins(1, NATIVE_DENOM)).unwrap();
    assert_eq!(balance(&sent, new_output, &native()), 1);
    assert_eq!(balance(&sent, OUTPUT, &native()), 0);
}

#[test]
fn test_native_pay() {
    let mut ledger = setup();
    let mut sent: Vec<TransferInstruction> = vec![];

    // Ensure output has no balance.
    assert_eq!(balance(&sent, OUTPUT, &native()), 0);

    // Ensure cannot pay with no native tokens.
    let err = pay_native(&mut ledger, PAYER, RECEIPT_ID, vec![]).unwrap_err();
    assert_eq!(err, ContractError::MissingPayment);

    // Pay with native tokens.
    let amount: u128 = 2;
    sent.extend(pay_native(&mut ledger, PAYER, RECEIPT_ID, coins(amount, NATIVE_DENOM)).unwrap());

    // Ensure output has balance, and nothing stays behind.
    assert_eq!(balance(&sent, OUTPUT, &native()), amount);
    assert_eq!(sent.iter().map(|t| t.amount).sum::<u128>(), amount);

    // Ensure payment #0 is stored for receipt.
    assert_eq!(
        payments_to(&ledger, RECEIPT_ID),
        ListPaymentsToIdResponse {
            payments: vec![ReceiptPaymentWithoutId {
                receipt_payment_id: 0,
                payment: payment(PAYER, native(), amount),
            }]
        }
    );

    // Ensure payment #0 returned in master list.
    assert_eq!(
        all_payments(&ledger),
        ListPaymentsResponse {
            payments: vec![
                ReceiptPayment {
                    receipt_id: RECEIPT_ID.to_string(),
                    receipt_payment_id: 0,
                    payment: payment(PAYER, native(), amount),
                },
            ]
        }
    );

    // Ensure receipt ID listed for payer.
    assert_eq!(
        ids_for(&ledger, PAYER),
        ListIdsForPayerResponse {
            ids: vec![RECEIPT_ID.to_string()]
        }
    );

    // Try to pay with native tokens to same receipt ID from different payer.
    let err = pay_native(&mut ledger, OTHER_PAYER, RECEIPT_ID, coins(amount, NATIVE_DENOM)).unwrap_err();
    assert_eq!(err, ContractError::UnauthorizedPayer);

    // Ensure output has same balance.
    assert_eq!(balance(&sent, OUTPUT, &native()), amount);

    // Ensure receipt ID not listed for other payer.
    assert_eq!(ids_for(&ledger, OTHER_PAYER), ListIdsForPayerResponse { ids: vec![] });

    // Pay with native tokens to same receipt ID.
    sent.extend(pay_native(&mut ledger, PAYER, RECEIPT_ID, coins(amount * 2, NATIVE_DENOM)).unwrap());

    // Ensure output balance increased.
    assert_eq!(balance(&sent, OUTPUT, &native()), amount * 3);

    // Ensure two payments are stored for receipt.
    assert_eq!(
        payments_to(&ledger, RECEIPT_ID),
        ListPaymentsToIdResponse {
            payments: vec![
                ReceiptPaymentWithoutId {
                    receipt_payment_id: 0,
                    payment: payment(PAYER, native(), amount),
                },
                ReceiptPaymentWithoutId {
                    receipt_payment_id: 1,
                    payment: payment(PAYER, native(), amount * 2),
                },
            ]
        }
    );

    // Ensure two payments are stored in master list.
    assert_eq!(
        all_payments(&ledger),
        ListPaymentsResponse {
            payments: vec![
                ReceiptPayment {
                    receipt_id: RECEIPT_ID.to_string(),
                    receipt_payment_id: 0,
                    payment: payment(PAYER, native(), amount),
                },
                ReceiptPayment {
                    receipt_id: RECEIPT_ID.to_string(),
                    receipt_payment_id: 1,
                    payment: payment(PAYER, native(), amount * 2),
                },
            ]
        }
    );

    // Ensure total accumulated for receipt.
    assert_eq!(
        totals_to(&ledger, RECEIPT_ID),
        ListTotalsPaidToIdResponse {
            totals: vec![Total {
                denom: native(),
                amount: amount * 3,
            }]
        }
    );

    // Ensure total accumulated for payer.
    assert_eq!(
        totals_by(&ledger, PAYER),
        ListTotalsPaidByPayerResponse {
            totals: vec![Total {
                denom: native(),
                amount: amount * 3,
            }]
        }
    );

    // Ensure no total accumulated for other payer.
    assert_eq!(totals_by(&ledger, OTHER_PAYER), ListTotalsPaidByPayerResponse { totals: vec![] });

    // Ensure no total accumulated for unused receipt.
    assert_eq!(totals_to(&ledger, "unused_receipt"), ListTotalsPaidToIdResponse { totals: vec![] });
}

#[test]
fn test_cw20_pay() {
    let mut ledger = setup();
    let mut sent: Vec<TransferInstruction> = vec![];

    // Ensure output has no balance.
    assert_eq!(balance(&sent, OUTPUT, &cw20()), 0);

    // Pay with cw20 tokens.
    let amount: u128 = 2;
    sent.push(pay_cw20(&mut ledger, PAYER, RECEIPT_ID, amount).unwrap());

    // Ensure output has balance, and nothing stays behind.
    assert_eq!(balance(&sent, OUTPUT, &cw20()), amount);
    assert_eq!(sent.iter().map(|t| t.amount).sum::<u128>(), amount);

    // Ensure payment #0 is stored for receipt.
    assert_eq!(
        payments_to(&ledger, RECEIPT_ID),
        ListPaymentsToIdResponse {
            payments: vec![ReceiptPaymentWithoutId {
                receipt_payment_id: 0,
                payment: payment(PAYER, cw20(), amount),
            }]
        }
    );

    // Ensure payment #0 is stored in master list.
    assert_eq!(
        all_payments(&ledger),
        ListPaymentsResponse {
            payments: vec![
                ReceiptPayment {
                    receipt_id: RECEIPT_ID.to_string(),
                    receipt_payment_id: 0,
                    payment: payment(PAYER, cw20(), amount),
                },
            ]
        }
    );

    // Ensure receipt ID listed for payer.
    assert_eq!(
        ids_for(&ledger, PAYER),
        ListIdsForPayerResponse {
            ids: vec![RECEIPT_ID.to_string()]
        }
    );

    // Try to pay with cw20 tokens to same receipt ID from different payer.
    let err = pay_cw20(&mut ledger, OTHER_PAYER, RECEIPT_ID, amount).unwrap_err();
    assert_eq!(err, ContractError::UnauthorizedPayer);

    // Ensure output has same balance.
    assert_eq!(balance(&sent, OUTPUT, &cw20()), amount);

    // Ensure receipt ID not listed for other payer.
    assert_eq!(ids_for(&ledger, OTHER_PAYER), ListIdsForPayerResponse { ids: vec![] });

    // Pay with cw20 tokens to same receipt ID.
    sent.push(pay_cw20(&mut ledger, PAYER, RECEIPT_ID, amount * 2).unwrap());

    // Ensure output balance increased.
    assert_eq!(balance(&sent, OUTPUT, &cw20()), amount * 3);

    // Ensure two payments are stored for receipt.
    assert_eq!(
        payments_to(&ledger, RECEIPT_ID),
        ListPaymentsToIdResponse {
            payments: vec![
                ReceiptPaymentWithoutId {
                    receipt_payment_id: 0,
                    payment: payment(PAYER, cw20(), amount),
                },
                ReceiptPaymentWithoutId {
                    receipt_payment_id: 1,
                    payment: payment(PAYER, cw20(), amount * 2),
                },
            ]
        }
    );

    // Ensure two payments are stored in master list.
    assert_eq!(
        all_payments(&ledger),
        ListPaymentsResponse {
            payments: vec![
                ReceiptPayment {
                    receipt_id: RECEIPT_ID.to_string(),
                    receipt_payment_id: 0,
                    payment: payment(PAYER, cw20(), amount),
                },
                ReceiptPayment {
                    receipt_id: RECEIPT_ID.to_string(),
                    receipt_payment_id: 1,
                    payment: payment(PAYER, cw20(), amount * 2),
                },
            ]
        }
    );

    // Ensure total accumulated for receipt.
    assert_eq!(
        totals_to(&ledger, RECEIPT_ID),
        ListTotalsPaidToIdResponse {
            totals: vec![Total {
                denom: cw20(),
                amount: amount * 3,
            }]
        }
    );

    // Ensure total accumulated for payer.
    assert_eq!(
        totals_by(&ledger, PAYER),
        ListTotalsPaidByPayerResponse {
            totals: vec![Total {
                denom: cw20(),
                amount: amount * 3,
            }]
        }
    );

    // Ensure no total accumulated for other payer.
    assert_eq!(totals_by(&ledger, OTHER_PAYER), ListTotalsPaidByPayerResponse { totals: vec![] });

    // Ensure no total accumulated for unused receipt.
    assert_eq!(totals_to(&ledger, "unused_receipt"), ListTotalsPaidToIdResponse { totals: vec![] });
}

#[test]
fn test_both_pay() {
    let mut ledger = setup();
    let mut sent: Vec<TransferInstruction> = vec![];

    // Ensure output has no native and no cw20 balance.
    assert_eq!(balance(&sent, OUTPUT, &native()), 0);
    assert_eq!(balance(&sent, OUTPUT, &cw20()), 0);

    // Pay with native tokens.
    let native_amount: u128 = 2;
    sent.extend(pay_native(&mut ledger, PAYER, RECEIPT_ID, coins(native_amount, NATIVE_DENOM)).unwrap());

    // Pay with cw20 tokens.
    let cw20_amount: u128 = 3;
    sent.push(pay_cw20(&mut ledger, PAYER, RECEIPT_ID, cw20_amount).unwrap());

    // Ensure output has both balances, and nothing stays behind.
    assert_eq!(balance(&sent, OUTPUT, &native()), native_amount);
    assert_eq!(balance(&sent, OUTPUT, &cw20()), cw20_amount);
    assert_eq!(sent.iter().map(|t| t.amount).sum::<u128>(), native_amount + cw20_amount);

    // Ensure two payments are stored for receipt. First native, then cw20.
    assert_eq!(
        payments_to(&ledger, RECEIPT_ID),
        ListPaymentsToIdResponse {
            payments: vec![
                ReceiptPaymentWithoutId {
                    receipt_payment_id: 0,
                    payment: payment(PAYER, native(), native_amount),
                },
                ReceiptPaymentWithoutId {
                    receipt_payment_id: 1,
                    payment: payment(PAYER, cw20(), cw20_amount),
                },
            ]
        }
    );

    // Ensure two payments are stored in master list. First native, then cw20.
    assert_eq!(
        all_payments(&ledger),
        ListPaymentsResponse {
            payments: vec![
                ReceiptPayment {
                    receipt_id: RECEIPT_ID.to_string(),
                    receipt_payment_id: 0,
                    payment: payment(PAYER, native(), native_amount),
                },
                ReceiptPayment {
                    receipt_id: RECEIPT_ID.to_string(),
                    receipt_payment_id: 1,
                    payment: payment(PAYER, cw20(), cw20_amount),
                },
            ]
        }
    );

    // Ensure receipt ID listed for payer.
    assert_eq!(
        ids_for(&ledger, PAYER),
        ListIdsForPayerResponse {
            ids: vec![RECEIPT_ID.to_string()]
        }
    );

    // Ensure both totals accumulated for receipt.
    let both = vec![
        Total {
            denom: cw20(),
            amount: cw20_amount,
        },
        Total {
            denom: native(),
            amount: native_amount,
        },
    ];
    assert_eq!(totals_to(&ledger, RECEIPT_ID), ListTotalsPaidToIdResponse { totals: both });

    // Ensure both totals accumulated for payer.
    let both = vec![
        Total {
            denom: cw20(),
            amount: cw20_amount,
        },
        Total {
            denom: native(),
            amount: native_amount,
        },
    ];
    assert_eq!(totals_by(&ledger, PAYER), ListTotalsPaidByPayerResponse { totals: both });
}

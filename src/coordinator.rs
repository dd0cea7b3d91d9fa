//! The execution coordinator: the decisions of one swap, from request to
//! result, as a machine that the caller drives. The caller performs each
//! action (a chain read, a broadcast, a wait) and hands back what came of it.
use vstd::prelude::*;
use crate::address::{Address, is_address_text};
use crate::amount::amount_result;
use crate::planner::{
    PlanError,
    SwapPlan,
    TradeRequest,
    ValidRequest,
    planned,
    plan_now,
    quote_view,
    validate_request,
    validated,
};

verus! {

/// A transaction receipt: the transaction's hash and its status code, if the
/// node gave one.
#[derive(Clone, Copy, Debug)]
pub struct Receipt {
    pub tx_hash: [u8; 32],
    pub status: Option<u64>,
}

/// Why a swap failed, by the stage that failed.
#[derive(Clone, Debug)]
pub enum ExecError {
    /// The service's own settings are missing or invalid.
    Configuration(String),
    /// The request was refused before anything was sent.
    Validation(PlanError),
    /// A read from the chain failed.
    Upstream(String),
    /// The transaction was not accepted for broadcast.
    Submission(String),
    /// Waiting for the receipt failed.
    Confirmation(String),
    /// An event came that the current stage does not expect.
    OutOfOrder,
}

/// How one swap ended.
#[derive(Clone, Debug)]
pub enum SubmissionResult {
    Confirmed { tx_hash: [u8; 32], status: u64 },
    /// The network accepted the transaction but gave no receipt yet.
    PendingNoReceipt,
    Failed(ExecError),
}

/// Where a swap stands.
#[derive(Clone, Debug)]
pub enum ExecState {
    Validating { trade: TradeRequest, recipient: Address },
    ReadingBaseAsset { request: ValidRequest, recipient: Address },
    Quoting { request: ValidRequest, base_asset: Address, recipient: Address },
    Submitting,
    Confirming,
    Done,
}

/// What the caller reports back.
#[derive(Debug)]
pub enum Event {
    Begin,
    BaseAsset(Result<Address, String>),
    /// The amounts that the router quoted, or `None` if the call failed.
    Quote(Option<Vec<[u64; 4]>>),
    Broadcast(Result<(), String>),
    Receipt(Result<Option<Receipt>, String>),
}

/// What the caller is to do next.
#[derive(Clone, Debug)]
pub enum Action {
    ReadBaseAsset,
    RequestQuote { amount_in: [u64; 4], path: Vec<Address> },
    /// Sign and send the swap, attaching `amount_in` of the native asset.
    Broadcast(SwapPlan),
    AwaitReceipt,
    Finish(SubmissionResult),
}

pub open spec fn failed(next: ExecState, action: Action, e: ExecError) -> bool {
    next == ExecState::Done && action == Action::Finish(SubmissionResult::Failed(e))
}

/// One step of the machine: `next` and `action` follow `state` on `event`.
pub open spec fn stepped(state: ExecState, event: Event, next: ExecState, action: Action) -> bool {
    match (state, event) {
        (ExecState::Validating { trade: request, recipient }, Event::Begin) => exists|
            v: Result<ValidRequest, PlanError>,
        |
            #[trigger] validated(request, v) && match v {
                Err(e) => failed(next, action, ExecError::Validation(e)),
                Ok(valid) => next == (ExecState::ReadingBaseAsset { request: valid, recipient })
                    && action == Action::ReadBaseAsset,
            },
        (ExecState::ReadingBaseAsset { request, recipient }, Event::BaseAsset(res)) => match res {
            Err(msg) => failed(next, action, ExecError::Upstream(msg)),
            Ok(base) => if base.bytes@ == request.target.bytes@ {
                failed(next, action, ExecError::Validation(PlanError::TargetIsBaseAsset))
            } else {
                next == (ExecState::Quoting { request, base_asset: base, recipient }) && (
                action matches Action::RequestQuote { amount_in, path } && amount_in
                    == request.amount_in && path@ == seq![base, request.target])
            },
        },
        (ExecState::Quoting { request, base_asset, recipient }, Event::Quote(q)) => exists|
            now: i64,
            p: Result<SwapPlan, PlanError>,
        |
            #[trigger] planned(request, base_asset, recipient, quote_view(q), now as int, p)
                && match p {
                Err(e) => failed(next, action, ExecError::Validation(e)),
                Ok(swap) => next == ExecState::Submitting && action == Action::Broadcast(swap),
            },
        (ExecState::Submitting, Event::Broadcast(res)) => match res {
            Err(msg) => failed(next, action, ExecError::Submission(msg)),
            Ok(_) => next == ExecState::Confirming && action == Action::AwaitReceipt,
        },
        (ExecState::Confirming, Event::Receipt(res)) => next == ExecState::Done && match res {
            Err(msg) => action == Action::Finish(SubmissionResult::Failed(ExecError::Confirmation(msg))),
            Ok(None) => action == Action::Finish(SubmissionResult::PendingNoReceipt),
            Ok(Some(receipt)) => action == Action::Finish(
                SubmissionResult::Confirmed {
                    tx_hash: receipt.tx_hash,
                    status: match receipt.status {
                        Some(s) => s,
                        None => 0,
                    },
                },
            ),
        },
        _ => failed(next, action, ExecError::OutOfOrder),
    }
}

fn fail(e: ExecError) -> (r: (ExecState, Action))
    ensures
        failed(r.0, r.1, e),
{
    (ExecState::Done, Action::Finish(SubmissionResult::Failed(e)))
}

/// Advances a swap by one event. No stage is retried: the first failure ends
/// the swap, and a failed quote only lowers the least output to zero.
pub fn step(state: ExecState, event: Event) -> (r: (ExecState, Action))
    ensures
        stepped(state, event, r.0, r.1),
{
    match (state, event) {
        (ExecState::Validating { trade: request, recipient }, Event::Begin) => {
            let v = validate_request(&request);
            match v {
                Err(e) => fail(ExecError::Validation(e)),
                Ok(valid) => (
                    ExecState::ReadingBaseAsset { request: valid, recipient },
                    Action::ReadBaseAsset,
                ),
            }
        },
        (ExecState::ReadingBaseAsset { request, recipient }, Event::BaseAsset(res)) => match res {
            Err(msg) => fail(ExecError::Upstream(msg)),
            Ok(base) => {
                if base.same_as(&request.target) {
                    fail(ExecError::Validation(PlanError::TargetIsBaseAsset))
                } else {
                    let path = vec![base, request.target];
                    assert(path@ == seq![base, request.target]);
                    (
                        ExecState::Quoting { request, base_asset: base, recipient },
                        Action::RequestQuote { amount_in: request.amount_in, path },
                    )
                }
            },
        },
        (ExecState::Quoting { request, base_asset, recipient }, Event::Quote(q)) => {
            let p = plan_now(&request, &base_asset, &recipient, &q);
            match p {
                Err(e) => fail(ExecError::Validation(e)),
                Ok(swap) => (ExecState::Submitting, Action::Broadcast(swap)),
            }
        },
        (ExecState::Submitting, Event::Broadcast(res)) => match res {
            Err(msg) => fail(ExecError::Submission(msg)),
            Ok(_) => (ExecState::Confirming, Action::AwaitReceipt),
        },
        (ExecState::Confirming, Event::Receipt(res)) => match res {
            Err(msg) => (
                ExecState::Done,
                Action::Finish(SubmissionResult::Failed(ExecError::Confirmation(msg))),
            ),
            Ok(None) => (ExecState::Done, Action::Finish(SubmissionResult::PendingNoReceipt)),
            Ok(Some(receipt)) => {
                let status: u64 = match receipt.status {
                    Some(s) => s,
                    None => 0,
                };
                (
                    ExecState::Done,
                    Action::Finish(
                        SubmissionResult::Confirmed { tx_hash: receipt.tx_hash, status },
                    ),
                )
            },
        },
        _ => fail(ExecError::OutOfOrder),
    }
}

/// The HTTP status that reports a result: 200 when the network took the
/// transaction, 400 for a bad request or deployment, 500 for a failure on
/// the chain's side.
pub fn http_status(result: &SubmissionResult) -> (r: u16)
    ensures
        r == match result {
            SubmissionResult::Failed(ExecError::Configuration(_)) => 400u16,
            SubmissionResult::Failed(ExecError::Validation(_)) => 400u16,
            SubmissionResult::Failed(_) => 500u16,
            _ => 200u16,
        },
{
    match result {
        SubmissionResult::Failed(ExecError::Configuration(_)) => 400,
        SubmissionResult::Failed(ExecError::Validation(_)) => 400,
        SubmissionResult::Failed(_) => 500,
        _ => 200,
    }
}

/// A request whose target token is not an address ends at validation with a
/// validation error: the first action is to finish, so no call reaches the
/// chain. When the amount is fine, the error names the target.
pub proof fn lemma_malformed_target_makes_no_call(
    request: TradeRequest,
    recipient: Address,
    next: ExecState,
    action: Action,
)
    requires
        stepped(ExecState::Validating { trade: request, recipient }, Event::Begin, next, action),
        !is_address_text(request.target_token@),
    ensures
        next == ExecState::Done,
        action matches Action::Finish(SubmissionResult::Failed(ExecError::Validation(_))),
        amount_result(request.input_amount@) is Ok ==> action == Action::Finish(
            SubmissionResult::Failed(ExecError::Validation(PlanError::MalformedTarget)),
        ),
{
    let v = choose|v: Result<ValidRequest, PlanError>|
        #[trigger] validated(request, v) && match v {
            Err(e) => failed(next, action, ExecError::Validation(e)),
            Ok(valid) => next == (ExecState::ReadingBaseAsset { request: valid, recipient })
                && action == Action::ReadBaseAsset,
        };
    assert(v is Err);
}

/// A target token equal to the base asset ends the swap with a validation
/// error as soon as the base asset is known: no quote is asked for and
/// nothing is broadcast.
pub proof fn lemma_same_asset_makes_no_submission(
    request: ValidRequest,
    recipient: Address,
    base_asset: Address,
    next: ExecState,
    action: Action,
)
    requires
        stepped(
            ExecState::ReadingBaseAsset { request, recipient },
            Event::BaseAsset(Ok(base_asset)),
            next,
            action,
        ),
        base_asset.bytes@ == request.target.bytes@,
    ensures
        next == ExecState::Done,
        action == Action::Finish(
            SubmissionResult::Failed(ExecError::Validation(PlanError::TargetIsBaseAsset)),
        ),
{
}

} // verus!

use vstd::prelude::*;

use crate::expiration::Duration;

verus! {

/// Who administers the contract: an address, or the DAO core module that
/// instantiates it.
#[derive(Clone, Debug, PartialEq, Eq)]
pub enum Admin {
    Address { addr: String },
    CoreModule {},
}

/// How much stake keeps the DAO active: an absolute amount, or a share of
/// the supply given as a decimal's atomics (units of 10^-18).
#[derive(Clone, Debug, PartialEq, Eq)]
pub enum ActiveThreshold {
    AbsoluteCount { count: u128 },
    Percentage { percent: u128 },
}

/// One unit of a denomination's metadata.
#[derive(Clone, Debug, PartialEq, Eq)]
pub struct DenomUnit {
    pub denom: String,
    pub exponent: u32,
    pub aliases: Vec<String>,
}

/// Metadata of a new token's denomination.
#[derive(Clone, Debug, PartialEq, Eq)]
pub struct Metadata {
    pub description: Option<String>,
    pub denom_units: Vec<DenomUnit>,
    pub base: Option<String>,
    pub display: Option<String>,
    pub name: Option<String>,
    pub symbol: Option<String>,
}

/// An amount of a new token minted to an address at instantiation.
#[derive(Clone, Debug, PartialEq, Eq)]
pub struct InitialBalance {
    pub amount: u128,
    pub mint_to_address: String,
}

/// A token to create through the token factory.
#[derive(Clone, Debug, PartialEq, Eq)]
pub struct NewTokenInfo {
    pub subdenom: String,
    pub metadata: Option<Metadata>,
    pub initial_balances: Vec<InitialBalance>,
    pub initial_dao_balance: Option<u128>,
}

/// The native token used for voting power: an existing denomination, or a
/// new one.
#[derive(Clone, Debug, PartialEq, Eq)]
pub enum TokenInfo {
    /// Token denom e.g. ujuno, or some ibc denom.
    Existing { denom: String },
    New(NewTokenInfo),
}

#[derive(Clone, Debug, PartialEq, Eq)]
pub struct InstantiateMsg {
    /// Can update all configs including changing the owner. This will
    /// generally be a DAO.
    pub owner: Option<Admin>,
    /// Can update all configs except changing the owner. This will generally
    /// be an operations multisig for a DAO.
    pub manager: Option<String>,
    /// New or existing native token to use for voting power.
    pub token_info: TokenInfo,
    /// How long until the tokens become liquid again.
    pub unstaking_duration: Option<Duration>,
    /// The number or percentage of tokens that must be staked for the DAO to
    /// be active.
    pub active_threshold: Option<ActiveThreshold>,
}

#[derive(Clone, Debug, PartialEq, Eq)]
pub enum ExecuteMsg {
    Stake {},
    Unstake { amount: u128 },
    UpdateConfig { owner: Option<String>, manager: Option<String>, duration: Option<Duration> },
    Claim {},
    /// Sets the active threshold to a new value. Only the instantiator of
    /// this contract (a DAO most likely) may call this method.
    UpdateActiveThreshold { new_threshold: Option<ActiveThreshold> },
    AddHook { addr: String },
    RemoveHook { addr: String },
}

#[derive(Clone, Debug, PartialEq, Eq)]
pub enum QueryMsg {
    GetConfig {},
    GetDenom {},
    Claims { address: String },
    ListStakers { start_after: Option<String>, limit: Option<u32> },
    ActiveThreshold {},
    GetHooks {},
    VotingPowerAtHeight { address: String, height: Option<u64> },
    TotalPowerAtHeight { height: Option<u64> },
    Dao {},
    Info {},
    IsActive {},
}

#[derive(Clone, Debug, PartialEq, Eq)]
pub struct MigrateMsg {}

#[derive(Clone, Debug, PartialEq, Eq)]
pub struct ListStakersResponse {
    pub stakers: Vec<StakerBalanceResponse>,
}

#[derive(Clone, Debug, PartialEq, Eq)]
pub struct StakerBalanceResponse {
    pub address: String,
    pub balance: u128,
}

#[derive(Clone, Debug, PartialEq, Eq)]
pub struct DenomResponse {
    pub denom: String,
}

#[derive(Clone, Debug, PartialEq, Eq)]
pub struct ActiveThresholdResponse {
    pub active_threshold: Option<ActiveThreshold>,
}

#[derive(Clone, Debug, PartialEq, Eq)]
pub struct GetHooksResponse {
    pub hooks: Vec<String>,
}

} // verus!

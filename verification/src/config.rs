//! Run configuration: the command-line shape, the supported chains, and
//! each chain's fixed RPC endpoint and API-key environment variable.

use vstd::prelude::*;

use crate::ascii::ascii_lowercase;
use crate::ascii::bytes_eq;
use crate::ascii::lower_bytes;
use crate::ascii::LC_B;
use crate::ascii::LC_C;
use crate::ascii::LC_E;
use crate::ascii::LC_G;
use crate::ascii::LC_H;
use crate::ascii::LC_L;
use crate::ascii::LC_M;
use crate::ascii::LC_N;
use crate::ascii::LC_O;
use crate::ascii::LC_P;
use crate::ascii::LC_R;
use crate::ascii::LC_S;
use crate::ascii::LC_T;
use crate::ascii::LC_U;
use crate::ascii::LC_Y;

verus! {

/// The command-line arguments of the audit tool.
#[derive(Debug)]
pub struct CommandlineArgs {
    /// The owner wallet address to audit.
    pub address: Vec<u8>,
    /// Whether to print the run's execution time at the end.
    pub execution_time: bool,
    /// The chain to work on: `bsc`, `ethereum` or `polygon`.
    pub chain: Vec<u8>,
}

/// The supported chains.
#[derive(Clone, Copy, Debug, PartialEq, Eq, Structural)]
pub enum ChainType {
    Bsc,
    Ethereum,
    Polygon,
}

/// The flag value selecting the BSC chain.
pub open spec fn bsc_name() -> Seq<u8> {
    seq![LC_B, LC_S, LC_C]
}

/// The flag value selecting the Ethereum chain.
pub open spec fn ethereum_name() -> Seq<u8> {
    seq![LC_E, LC_T, LC_H, LC_E, LC_R, LC_E, LC_U, LC_M]
}

/// The flag value selecting the Polygon chain.
pub open spec fn polygon_name() -> Seq<u8> {
    seq![LC_P, LC_O, LC_L, LC_Y, LC_G, LC_O, LC_N]
}

/// The chain a flag value selects, case-insensitively; any other value
/// selects none.
pub open spec fn chain_of_name(s: Seq<u8>) -> Option<ChainType> {
    if lower_bytes(s) == bsc_name() {
        Some(ChainType::Bsc)
    } else if lower_bytes(s) == ethereum_name() {
        Some(ChainType::Ethereum)
    } else if lower_bytes(s) == polygon_name() {
        Some(ChainType::Polygon)
    } else {
        None
    }
}

/// Resolves the `--chain` flag value to its chain.
pub fn parse_chain(chain: &[u8]) -> (r: Option<ChainType>)
    ensures
        r == chain_of_name(chain@),
{
    let lc = ascii_lowercase(chain);
    let mut bsc: Vec<u8> = Vec::new();
    bsc.push(LC_B);
    bsc.push(LC_S);
    bsc.push(LC_C);
    proof {
        assert(bsc@ =~= bsc_name());
    }
    if bytes_eq(lc.as_slice(), bsc.as_slice()) {
        return Some(ChainType::Bsc);
    }
    let mut ethereum: Vec<u8> = Vec::new();
    ethereum.push(LC_E);
    ethereum.push(LC_T);
    ethereum.push(LC_H);
    ethereum.push(LC_E);
    ethereum.push(LC_R);
    ethereum.push(LC_E);
    ethereum.push(LC_U);
    ethereum.push(LC_M);
    proof {
        assert(ethereum@ =~= ethereum_name());
    }
    if bytes_eq(lc.as_slice(), ethereum.as_slice()) {
        return Some(ChainType::Ethereum);
    }
    let mut polygon: Vec<u8> = Vec::new();
    polygon.push(LC_P);
    polygon.push(LC_O);
    polygon.push(LC_L);
    polygon.push(LC_Y);
    polygon.push(LC_G);
    polygon.push(LC_O);
    polygon.push(LC_N);
    proof {
        assert(polygon@ =~= polygon_name());
    }
    if bytes_eq(lc.as_slice(), polygon.as_slice()) {
        return Some(ChainType::Polygon);
    }
    None
}

/// The fixed default RPC endpoint of a chain.
pub fn rpc_endpoint(chain: ChainType) -> (r: &'static str)
    ensures
        chain is Bsc ==> r@ == "https://bsc-dataseed.binance.org/"@,
        chain is Ethereum ==> r@ == "https://rpc.ankr.com/eth"@,
        chain is Polygon ==> r@ == "https://polygon-rpc.com/"@,
{
    match chain {
        ChainType::Bsc => "https://bsc-dataseed.binance.org/",
        ChainType::Ethereum => "https://rpc.ankr.com/eth",
        ChainType::Polygon => "https://polygon-rpc.com/",
    }
}

/// The environment variable that must hold the explorer API key for a
/// chain.
pub fn apikey_env_name(chain: ChainType) -> (r: &'static str)
    ensures
        chain is Bsc ==> r@ == "APPVKEK_BSCSCAN_APIKEY"@,
        chain is Ethereum ==> r@ == "APPVKEK_ETHERSCAN_APIKEY"@,
        chain is Polygon ==> r@ == "APPVKEK_POLYGONSCAN_APIKEY"@,
{
    match chain {
        ChainType::Bsc => "APPVKEK_BSCSCAN_APIKEY",
        ChainType::Ethereum => "APPVKEK_ETHERSCAN_APIKEY",
        ChainType::Polygon => "APPVKEK_POLYGONSCAN_APIKEY",
    }
}

} // verus!

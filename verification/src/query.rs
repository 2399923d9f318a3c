//! The queries that read a feature database.

use vstd::prelude::*;
use vstd::string::*;
use crate::text::{join, joined, law_joined_texts_stand_apart};

verus! {

/// Columns that are read of a snapshot, after its time.
pub const NUM_COLUMNS: usize = 40;

/// The vote columns of a snapshot.
pub open spec fn vote_columns() -> Seq<Seq<char>> {
    seq![
        "ob_vote"@,
        "tape_vote"@,
        "mdf_vote"@,
        "funding_vote"@,
        "volatility_vote"@,
        "entropy_vote"@,
        "markov_vote"@,
        "correlation_vote"@,
        "regime_vote"@,
        "resonance_vote"@,
        "binance_vote"@,
        "hyperliquid_vote"@,
        "oi_delta_vote"@,
        "whale_vote"@,
        "cross_ex_vote"@,
        "mrf_vote"@,
        "spread_vote"@,
        "liq_cascade_vote"@,
        "sentiment_vel_vote"@,
        "max_pain_vote"@,
        "fourier_vote"@,
        "ornstein_uhlenbeck_vote"@,
        "shannon_vote"@,
        "bayesian_vote"@,
        "pca_vote"@,
        "drift_diffusion_vote"@,
        "mutual_info_vote"@,
        "copula_vote"@,
        "dax_modifier"@,
    ]
}

/// The columns of a snapshot beside its votes.
pub open spec fn extra_columns() -> Seq<Seq<char>> {
    seq![
        "mdt_confirmed"@,
        "mdt_momentum_bps"@,
        "omega"@,
        "effective_omega"@,
        "agreement"@,
        "num_voters"@,
        "mrf_confidence"@,
        "spread_bps"@,
        "price"@,
        "mark_price"@,
        "best_bid"@,
    ]
}

/// All columns that are read of a snapshot: its time, its votes, the others.
pub open spec fn snapshot_columns() -> Seq<Seq<char>> {
    seq!["ts"@] + vote_columns() + extra_columns()
}

/// The query for the snapshots of one symbol, oldest first.
pub open spec fn snapshot_query_text() -> Seq<char> {
    "SELECT "@ + joined(snapshot_columns(), ","@)
        + " FROM signal_snapshots WHERE symbol=? ORDER BY ts ASC"@
}

fn snapshot_column_names() -> (names: Vec<String>)
    ensures
        names@.map_values(|s: String| s@) == snapshot_columns(),
{
    let mut names: Vec<String> = Vec::new();
    names.push("ts".to_owned());
    names.push("ob_vote".to_owned());
    names.push("tape_vote".to_owned());
    names.push("mdf_vote".to_owned());
    names.push("funding_vote".to_owned());
    names.push("volatility_vote".to_owned());
    names.push("entropy_vote".to_owned());
    names.push("markov_vote".to_owned());
    names.push("correlation_vote".to_owned());
    names.push("regime_vote".to_owned());
    names.push("resonance_vote".to_owned());
    names.push("binance_vote".to_owned());
    names.push("hyperliquid_vote".to_owned());
    names.push("oi_delta_vote".to_owned());
    names.push("whale_vote".to_owned());
    names.push("cross_ex_vote".to_owned());
    names.push("mrf_vote".to_owned());
    names.push("spread_vote".to_owned());
    names.push("liq_cascade_vote".to_owned());
    names.push("sentiment_vel_vote".to_owned());
    names.push("max_pain_vote".to_owned());
    names.push("fourier_vote".to_owned());
    names.push("ornstein_uhlenbeck_vote".to_owned());
    names.push("shannon_vote".to_owned());
    names.push("bayesian_vote".to_owned());
    names.push("pca_vote".to_owned());
    names.push("drift_diffusion_vote".to_owned());
    names.push("mutual_info_vote".to_owned());
    names.push("copula_vote".to_owned());
    names.push("dax_modifier".to_owned());
    assert(names@.map_values(|s: String| s@) =~= seq!["ts"@] + vote_columns());
    names.push("mdt_confirmed".to_owned());
    names.push("mdt_momentum_bps".to_owned());
    names.push("omega".to_owned());
    names.push("effective_omega".to_owned());
    names.push("agreement".to_owned());
    names.push("num_voters".to_owned());
    names.push("mrf_confidence".to_owned());
    names.push("spread_bps".to_owned());
    names.push("price".to_owned());
    names.push("mark_price".to_owned());
    names.push("best_bid".to_owned());
    assert(names@.map_values(|s: String| s@) =~= snapshot_columns());
    names
}

/// The query for the snapshots of one symbol.
pub fn snapshot_query() -> (query: String)
    ensures
        query@ == snapshot_query_text(),
{
    let names: Vec<String> = snapshot_column_names();
    let columns: String = join(&names, ",");
    let mut query: String = "SELECT ".to_owned();
    query.append(columns.as_str());
    query.append(" FROM signal_snapshots WHERE symbol=? ORDER BY ts ASC");
    query
}

/// The query for the labels of one symbol, oldest first.
pub fn label_query() -> (query: &'static str)
    ensures
        query@ == "SELECT ts, action FROM omega_history WHERE symbol=? ORDER BY ts ASC"@,
{
    "SELECT ts, action FROM omega_history WHERE symbol=? ORDER BY ts ASC"
}

/// As many columns are read as the feature layout takes values from.
pub proof fn law_column_count()
    ensures
        snapshot_columns().len() == NUM_COLUMNS + 1,
{
}

/// The time comes first, and every value has its own column: the votes in their
/// order, then the other values in theirs.
pub proof fn law_columns_stand_in_order()
    ensures
        snapshot_columns()[0] == "ts"@,
        snapshot_columns()[1] == "ob_vote"@,
        snapshot_columns()[2] == "tape_vote"@,
        snapshot_columns()[3] == "mdf_vote"@,
        snapshot_columns()[4] == "funding_vote"@,
        snapshot_columns()[5] == "volatility_vote"@,
        snapshot_columns()[6] == "entropy_vote"@,
        snapshot_columns()[7] == "markov_vote"@,
        snapshot_columns()[8] == "correlation_vote"@,
        snapshot_columns()[9] == "regime_vote"@,
        snapshot_columns()[10] == "resonance_vote"@,
        snapshot_columns()[11] == "binance_vote"@,
        snapshot_columns()[12] == "hyperliquid_vote"@,
        snapshot_columns()[13] == "oi_delta_vote"@,
        snapshot_columns()[14] == "whale_vote"@,
        snapshot_columns()[15] == "cross_ex_vote"@,
        snapshot_columns()[16] == "mrf_vote"@,
        snapshot_columns()[17] == "spread_vote"@,
        snapshot_columns()[18] == "liq_cascade_vote"@,
        snapshot_columns()[19] == "sentiment_vel_vote"@,
        snapshot_columns()[20] == "max_pain_vote"@,
        snapshot_columns()[21] == "fourier_vote"@,
        snapshot_columns()[22] == "ornstein_uhlenbeck_vote"@,
        snapshot_columns()[23] == "shannon_vote"@,
        snapshot_columns()[24] == "bayesian_vote"@,
        snapshot_columns()[25] == "pca_vote"@,
        snapshot_columns()[26] == "drift_diffusion_vote"@,
        snapshot_columns()[27] == "mutual_info_vote"@,
        snapshot_columns()[28] == "copula_vote"@,
        snapshot_columns()[29] == "dax_modifier"@,
        snapshot_columns()[30] == "mdt_confirmed"@,
        snapshot_columns()[31] == "mdt_momentum_bps"@,
        snapshot_columns()[32] == "omega"@,
        snapshot_columns()[33] == "effective_omega"@,
        snapshot_columns()[34] == "agreement"@,
        snapshot_columns()[35] == "num_voters"@,
        snapshot_columns()[36] == "mrf_confidence"@,
        snapshot_columns()[37] == "spread_bps"@,
        snapshot_columns()[38] == "price"@,
        snapshot_columns()[39] == "mark_price"@,
        snapshot_columns()[40] == "best_bid"@,
{
}

/// A snapshot query asks for all columns by name, with a comma between one and
/// the next: what it asks for is what it would ask for with any first part of the
/// columns, a comma, and the rest.
pub proof fn law_queries_name_every_column(count: int)
    requires
        0 < count < snapshot_columns().len(),
    ensures
        snapshot_query_text() == "SELECT "@ + (joined(snapshot_columns().take(count), ","@)
            + ","@ + joined(snapshot_columns().skip(count), ","@))
            + " FROM signal_snapshots WHERE symbol=? ORDER BY ts ASC"@,
{
    let all = snapshot_columns();
    law_joined_texts_stand_apart(all.take(count), all.skip(count), ","@);
    assert(all.take(count) + all.skip(count) =~= all);
}

} // verus!

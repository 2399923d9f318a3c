//! Model dimensions, class names and traded symbols.

use vstd::prelude::*;
use crate::text::same_text;

verus! {

/// Features of one time step.
pub const INPUT_DIM: usize = 54;

/// Time steps of one model input.
pub const SEQ_LEN: usize = 20;

/// Brains of the inference swarm.
pub const NUM_BRAINS: usize = 300;

/// Width of a brain.
pub const D_MODEL: usize = 256;

/// Transformer layers of a brain.
pub const NUM_LAYERS: usize = 4;

/// Attention heads of a layer.
pub const NUM_HEADS: usize = 8;

/// Width of one attention head.
pub const HEAD_DIM: usize = 32;

/// Width of the feed-forward block.
pub const FFN_DIM: usize = 1024;

/// Actions that the model tells apart.
pub const NUM_CLASSES: usize = 4;

/// Symbols that the model follows.
pub const NUM_SYMBOLS: usize = 6;

/// The action names, by class.
pub open spec fn class_names() -> Seq<Seq<char>> {
    seq!["OBSERVE"@, "HOLD"@, "ENTER_LONG"@, "ENTER_SHORT"@]
}

/// The class of an action name, if it is one.
pub open spec fn class_of(action: Seq<char>) -> Option<nat> {
    if action == "OBSERVE"@ {
        Some(0)
    } else if action == "HOLD"@ {
        Some(1)
    } else if action == "ENTER_LONG"@ {
        Some(2)
    } else if action == "ENTER_SHORT"@ {
        Some(3)
    } else {
        None
    }
}

/// The symbols, in the order in which they are followed.
pub open spec fn symbols() -> Seq<Seq<char>> {
    seq!["BTC"@, "ETH"@, "SOL"@, "HYPE"@, "BNB"@, "LINK"@]
}

/// The position of a symbol among those followed, if it is one of them.
pub open spec fn symbol_position(symbol: Seq<char>) -> Option<nat> {
    if symbol == "BTC"@ {
        Some(0)
    } else if symbol == "ETH"@ {
        Some(1)
    } else if symbol == "SOL"@ {
        Some(2)
    } else if symbol == "HYPE"@ {
        Some(3)
    } else if symbol == "BNB"@ {
        Some(4)
    } else if symbol == "LINK"@ {
        Some(5)
    } else {
        None
    }
}

/// The name of a class.
pub fn class_name(class: usize) -> (name: &'static str)
    requires
        class < NUM_CLASSES,
    ensures
        name@ == class_names()[class as int],
{
    if class == 0 {
        "OBSERVE"
    } else if class == 1 {
        "HOLD"
    } else if class == 2 {
        "ENTER_LONG"
    } else {
        "ENTER_SHORT"
    }
}

/// The class that an action name stands for.
pub fn class_index(action: &str) -> (class: Option<usize>)
    ensures
        match class {
            Some(c) => class_of(action@) == Some(c as nat),
            None => class_of(action@) is None,
        },
{
    if same_text(action, "OBSERVE") {
        Some(0)
    } else if same_text(action, "HOLD") {
        Some(1)
    } else if same_text(action, "ENTER_LONG") {
        Some(2)
    } else if same_text(action, "ENTER_SHORT") {
        Some(3)
    } else {
        None
    }
}

/// The symbol at a position.
pub fn symbol_name(position: usize) -> (name: &'static str)
    requires
        position < NUM_SYMBOLS,
    ensures
        name@ == symbols()[position as int],
{
    if position == 0 {
        "BTC"
    } else if position == 1 {
        "ETH"
    } else if position == 2 {
        "SOL"
    } else if position == 3 {
        "HYPE"
    } else if position == 4 {
        "BNB"
    } else {
        "LINK"
    }
}

/// The position of a symbol.
pub fn symbol_index(symbol: &str) -> (position: Option<usize>)
    ensures
        match position {
            Some(p) => symbol_position(symbol@) == Some(p as nat),
            None => symbol_position(symbol@) is None,
        },
{
    if same_text(symbol, "BTC") {
        Some(0)
    } else if same_text(symbol, "ETH") {
        Some(1)
    } else if same_text(symbol, "SOL") {
        Some(2)
    } else if same_text(symbol, "HYPE") {
        Some(3)
    } else if same_text(symbol, "BNB") {
        Some(4)
    } else if same_text(symbol, "LINK") {
        Some(5)
    } else {
        None
    }
}

/// A training label and a predicted action use the same numbering: the class
/// of a class's name is that class, and only class names have a class.
pub proof fn law_class_names_round_trip(class: nat, action: Seq<char>)
    requires
        class < NUM_CLASSES,
    ensures
        class_of(class_names()[class as int]) == Some(class),
        class_of(action) matches Some(c) ==> c < NUM_CLASSES && class_names()[c as int] == action,
{
    reveal_strlit("OBSERVE");
    reveal_strlit("HOLD");
    reveal_strlit("ENTER_LONG");
    reveal_strlit("ENTER_SHORT");
    assert("OBSERVE"@.len() == 7);
    assert("HOLD"@.len() == 4);
    assert("ENTER_LONG"@.len() == 10);
    assert("ENTER_SHORT"@.len() == 11);
}

/// Every followed symbol is found at its own position, and nothing else is
/// found.
pub proof fn law_symbols_round_trip(position: nat, symbol: Seq<char>)
    requires
        position < NUM_SYMBOLS,
    ensures
        symbol_position(symbols()[position as int]) == Some(position),
        symbol_position(symbol) matches Some(p) ==> p < NUM_SYMBOLS && symbols()[p as int]
            == symbol,
{
    reveal_strlit("BTC");
    reveal_strlit("ETH");
    reveal_strlit("SOL");
    reveal_strlit("HYPE");
    reveal_strlit("BNB");
    reveal_strlit("LINK");
    assert("BTC"@[0] == 'B' && "BTC"@[1] == 'T' && "BTC"@.len() == 3);
    assert("ETH"@[0] == 'E' && "ETH"@.len() == 3);
    assert("SOL"@[0] == 'S' && "SOL"@.len() == 3);
    assert("HYPE"@[0] == 'H' && "HYPE"@.len() == 4);
    assert("BNB"@[0] == 'B' && "BNB"@[1] == 'N' && "BNB"@.len() == 3);
    assert("LINK"@[0] == 'L' && "LINK"@.len() == 4);
}

/// Every action stands for one class: observing for the first, holding for the
/// second, going long for the third, going short for the fourth.
pub proof fn law_actions_have_their_classes(action: Seq<char>)
    ensures
        class_of(action) == Some(0nat) <==> action == "OBSERVE"@,
        class_of(action) == Some(1nat) <==> action == "HOLD"@,
        class_of(action) == Some(2nat) <==> action == "ENTER_LONG"@,
        class_of(action) == Some(3nat) <==> action == "ENTER_SHORT"@,
        class_of(action) is Some <==> (action == "OBSERVE"@ || action == "HOLD"@ || action
            == "ENTER_LONG"@ || action == "ENTER_SHORT"@),
{
    reveal_strlit("OBSERVE");
    reveal_strlit("HOLD");
    reveal_strlit("ENTER_LONG");
    reveal_strlit("ENTER_SHORT");
    assert("OBSERVE"@.len() == 7);
    assert("HOLD"@.len() == 4);
    assert("ENTER_LONG"@.len() == 10);
    assert("ENTER_SHORT"@.len() == 11);
}

/// Every symbol stands at one position: Bitcoin at the first, Ether at the
/// second, and so on.
pub proof fn law_symbols_have_their_positions(symbol: Seq<char>)
    ensures
        symbol_position(symbol) == Some(0nat) <==> symbol == "BTC"@,
        symbol_position(symbol) == Some(1nat) <==> symbol == "ETH"@,
        symbol_position(symbol) == Some(2nat) <==> symbol == "SOL"@,
        symbol_position(symbol) == Some(3nat) <==> symbol == "HYPE"@,
        symbol_position(symbol) == Some(4nat) <==> symbol == "BNB"@,
        symbol_position(symbol) == Some(5nat) <==> symbol == "LINK"@,
        symbol_position(symbol) matches Some(p) ==> p < 6,
{
    reveal_strlit("BTC");
    reveal_strlit("ETH");
    reveal_strlit("SOL");
    reveal_strlit("HYPE");
    reveal_strlit("BNB");
    reveal_strlit("LINK");
    assert("BTC"@[0] == 'B' && "BTC"@[1] == 'T' && "BTC"@.len() == 3);
    assert("ETH"@[0] == 'E' && "ETH"@.len() == 3);
    assert("SOL"@[0] == 'S' && "SOL"@.len() == 3);
    assert("HYPE"@[0] == 'H' && "HYPE"@.len() == 4);
    assert("BNB"@[0] == 'B' && "BNB"@[1] == 'N' && "BNB"@.len() == 3);
    assert("LINK"@[0] == 'L' && "LINK"@.len() == 4);
}

} // verus!

//! Trading pairs: the names under which markets are registered.

use crate::messages::{pair_name, pair_text};
use vstd::prelude::*;

verus! {

/// A market's name: a base and a quote asset, both case-sensitive.
#[derive(Debug, PartialEq, Eq, Hash)]
pub struct TradingPair {
    base: String,
    quote: String,
}

impl View for TradingPair {
    type V = (Seq<char>, Seq<char>);

    closed spec fn view(&self) -> (Seq<char>, Seq<char>) {
        (self.base@, self.quote@)
    }
}

impl TradingPair {
    /// The pair of `base` and `quote`.
    pub fn new(base: String, quote: String) -> (pair: TradingPair)
        ensures
            pair@ == (base@, quote@),
    {
        TradingPair { base, quote }
    }

    /// The canonical name of the pair: base, underscore, quote.
    pub fn to_string(&self) -> (name: String)
        ensures
            name@ == pair_name(self@.0, self@.1),
    {
        pair_text(self.base.as_str(), self.quote.as_str())
    }

    /// The base asset.
    pub fn base(&self) -> (r: &str)
        ensures
            r@ == self@.0,
    {
        self.base.as_str()
    }

    /// The quote asset.
    pub fn quote(&self) -> (r: &str)
        ensures
            r@ == self@.1,
    {
        self.quote.as_str()
    }

    /// Whether two pairs name the same market.
    pub fn same_as(&self, other: &TradingPair) -> (r: bool)
        ensures
            r == (self@ == other@),
    {
        self.base == other.base && self.quote == other.quote
    }
}

impl Clone for TradingPair {
    fn clone(&self) -> (r: Self)
        ensures
            r@ == self@,
    {
        TradingPair { base: self.base.clone(), quote: self.quote.clone() }
    }
}

} // verus!

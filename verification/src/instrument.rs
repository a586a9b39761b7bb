//! Assets and trading pairs: the closed set of supported instruments and
//! their canonical `BASE-QUOTE` codes.

use vstd::prelude::*;
use vstd::string::StringExecFns;

verus! {

/// A token identity from the closed supported set, rendered and parsed as
/// its uppercase mnemonic.
#[derive(Clone, Copy, Debug, PartialEq, Eq, Hash, Structural)]
pub enum Asset {
    BTC,
    USD,
    ETH,
}

impl Asset {
    /// The uppercase mnemonic of this asset.
    pub open spec fn spec_code(self) -> Seq<char> {
        match self {
            Asset::BTC => "BTC"@,
            Asset::USD => "USD"@,
            Asset::ETH => "ETH"@,
        }
    }

    /// Render the asset as its mnemonic.
    pub fn code(&self) -> (r: String)
        ensures
            r@ == self.spec_code(),
    {
        match self {
            Asset::BTC => "BTC".to_owned(),
            Asset::USD => "USD".to_owned(),
            Asset::ETH => "ETH".to_owned(),
        }
    }

    /// Parse a mnemonic; `None` for anything outside the supported set.
    pub fn parse_code(s: &str) -> (r: Option<Asset>)
        ensures
            r matches Some(a) ==> s@ == a.spec_code(),
            r is None ==> s@ != "BTC"@ && s@ != "USD"@ && s@ != "ETH"@,
    {
        let t = s.to_owned();
        if t == "BTC".to_owned() {
            Some(Asset::BTC)
        } else if t == "USD".to_owned() {
            Some(Asset::USD)
        } else if t == "ETH".to_owned() {
            Some(Asset::ETH)
        } else {
            None
        }
    }
}

impl core::str::FromStr for Asset {
    type Err = &'static str;

    fn from_str(s: &str) -> Result<Self, Self::Err> {
        match Asset::parse_code(s) {
            Some(a) => Ok(a),
            None => Err("unknown asset"),
        }
    }
}

/// An ordered (base, quote) combination. Only the whitelisted pairs returned
/// by [`Pair::supported`] are legal instruments.
#[derive(Clone, Copy, Debug, PartialEq, Eq, Hash, Structural)]
pub struct Pair {
    pub base: Asset,
    pub quote: Asset,
}

impl Pair {
    /// The canonical wire form `BASE-QUOTE`.
    pub open spec fn spec_code(self) -> Seq<char> {
        self.base.spec_code() + "-"@ + self.quote.spec_code()
    }

    /// Whether this pair is in the supported whitelist.
    pub open spec fn is_supported(self) -> bool {
        self == (Pair { base: Asset::BTC, quote: Asset::USD }) || self == (Pair {
            base: Asset::ETH,
            quote: Asset::USD,
        })
    }

    /// The supported whitelist, in canonical order.
    pub open spec fn spec_supported() -> Seq<Pair> {
        seq![
            Pair { base: Asset::BTC, quote: Asset::USD },
            Pair { base: Asset::ETH, quote: Asset::USD },
        ]
    }

    /// Render the canonical `BASE-QUOTE` code.
    pub fn code(&self) -> (r: String)
        ensures
            r@ == self.spec_code(),
    {
        let mut s = self.base.code();
        s.append("-");
        let q = self.quote.code();
        s.append(q.as_str());
        s
    }

    /// Build the `base`-vs-USD pair.
    pub fn crypto_usd(base: Asset) -> (r: Pair)
        ensures
            r == (Pair { base, quote: Asset::USD }),
    {
        Pair { base, quote: Asset::USD }
    }

    /// All supported pairs.
    pub fn supported() -> (r: Vec<Pair>)
        ensures
            r@ == Self::spec_supported(),
    {
        let mut v: Vec<Pair> = Vec::new();
        v.push(Pair { base: Asset::BTC, quote: Asset::USD });
        v.push(Pair { base: Asset::ETH, quote: Asset::USD });
        proof {
            assert(v@ =~= Self::spec_supported());
        }
        v
    }

    /// Parse a canonical code against the whitelist; `None` for anything else.
    pub fn parse_code(s: &str) -> (r: Option<Pair>)
        ensures
            r matches Some(p) ==> p.is_supported() && s@ == p.spec_code(),
            r is None ==> s@ != "BTC-USD"@ && s@ != "ETH-USD"@,
    {
        let t = s.to_owned();
        if t == "BTC-USD".to_owned() {
            proof {
                reveal_strlit("BTC-USD");
                reveal_strlit("BTC");
                reveal_strlit("USD");
                reveal_strlit("-");
                assert((Pair { base: Asset::BTC, quote: Asset::USD }).spec_code() =~= "BTC-USD"@);
            }
            Some(Pair { base: Asset::BTC, quote: Asset::USD })
        } else if t == "ETH-USD".to_owned() {
            proof {
                reveal_strlit("ETH-USD");
                reveal_strlit("ETH");
                reveal_strlit("USD");
                reveal_strlit("-");
                assert((Pair { base: Asset::ETH, quote: Asset::USD }).spec_code() =~= "ETH-USD"@);
            }
            Some(Pair { base: Asset::ETH, quote: Asset::USD })
        } else {
            None
        }
    }
}

impl core::str::FromStr for Pair {
    type Err = &'static str;

    fn from_str(s: &str) -> Result<Self, Self::Err> {
        match Pair::parse_code(s) {
            Some(p) => Ok(p),
            None => Err("unsupported symbol"),
        }
    }
}

} // verus!

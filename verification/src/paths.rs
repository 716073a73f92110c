//! Fixed file layout under a wallet's base directory.
//!
//! A path-resolution collaborator outside this crate maps a wallet name to
//! a base directory; these functions append the fixed per-wallet file
//! names beneath it.  The service never writes anywhere else.

use vstd::prelude::*;

verus! {

/// The wallet's own directory: the base directory plus the wallet name.
pub fn _wallet_path(base: &str, name: &str) -> (r: String)
    ensures
        r@ == base@ + seq!['/'] + name@,
{
    let mut out = base.to_owned();
    out.append("/");
    out.append(name);
    proof {
        reveal_strlit("/");
        assert(out@ =~= base@ + seq!['/'] + name@);
    }
    out
}

/// The descriptor file inside the wallet's directory.
pub fn _wallet_descriptor_path(base: &str, name: &str) -> (r: String)
    ensures
        r@ == base@ + seq!['/'] + name@ + seq!['/'] + "wallet.json"@,
{
    let mut out = _wallet_path(base, name);
    out.append("/");
    out.append("wallet.json");
    proof {
        reveal_strlit("/");
        assert(out@ =~= base@ + seq!['/'] + name@ + seq!['/'] + "wallet.json"@);
    }
    out
}

/// The configuration copy inside the wallet's directory.
pub fn _wallet_config_path(base: &str, name: &str) -> (r: String)
    ensures
        r@ == base@ + seq!['/'] + name@ + seq!['/'] + "config.json"@,
{
    let mut out = _wallet_path(base, name);
    out.append("/");
    out.append("config.json");
    proof {
        reveal_strlit("/");
        assert(out@ =~= base@ + seq!['/'] + name@ + seq!['/'] + "config.json"@);
    }
    out
}

} // verus!

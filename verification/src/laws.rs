//! Laws of the wallet lifecycle, stated over the service's transition
//! relations and proved once for all states and inputs.
//!
//! Each operation's contract in `service` ties the executable code to a
//! transition relation (`create_transition`, `open_transition`, ...).
//! The lemmas here chain those relations, so what they state holds of any
//! run of the executable operations.

use vstd::prelude::*;

use crate::service::WalletService;
use crate::service::close_transition;
use crate::service::create_ok;
use crate::service::create_transition;
use crate::service::delete_ok;
use crate::service::get_ok;
use crate::service::get_value;
use crate::service::has_session;
use crate::service::has_wallet;
use crate::service::kv_at;
use crate::service::kv_has;
use crate::service::lemma_session_at_unique;
use crate::service::lemma_wallet_at_unique;
use crate::service::open_ok;
use crate::service::open_transition;
use crate::service::session_at;
use crate::service::set_transition;
use crate::service::wallet_at;

verus! {

/// After a successful `create`, the new wallet stands under its name with
/// exactly the fields that were passed, and wallet names stay unique.
proof fn lemma_created_wallet_found(
    s0: WalletService,
    s1: WalletService,
    pool_name: Seq<char>,
    xtype: Seq<char>,
    name: Seq<char>,
    config: Seq<char>,
    credentials: Seq<char>,
)
    requires
        s0.wf(),
        create_ok(s0, xtype, name),
        create_transition(s0, s1, pool_name, xtype, name, config, credentials),
    ensures
        has_wallet(s1.wallets@, name),
        wallet_at(s1.wallets@, name) == s1.wallets@.last(),
        forall|p: int, q: int|
            0 <= p < q < s1.wallets@.len()
                ==> s1.wallets@[p].descriptor.name@ != s1.wallets@[q].descriptor.name@,
{
    let last = s1.wallets@.len() - 1;
    assert(s1.wallets@[last].descriptor.name@ == name);
    assert forall|p: int, q: int|
        0 <= p < q < s1.wallets@.len()
            implies s1.wallets@[p].descriptor.name@ != s1.wallets@[q].descriptor.name@ by {
        if q == last {
            assert(s1.wallets@[p] == s0.wallets@[p]);
            if s0.wallets@[p].descriptor.name@ == name {
                assert(has_wallet(s0.wallets@, name));
            }
        } else {
            assert(s1.wallets@[p] == s0.wallets@[p]);
            assert(s1.wallets@[q] == s0.wallets@[q]);
        }
    }
    lemma_wallet_at_unique(s1.wallets@, last, name);
}

/// Creating a wallet, opening it with the creation credentials, storing a
/// value under a key and reading that key back yields exactly the stored
/// value, for every state, every valid input and every key and value.
pub proof fn lemma_create_open_set_get(
    s0: WalletService,
    s1: WalletService,
    s2: WalletService,
    s3: WalletService,
    pool_name: Seq<char>,
    xtype: Seq<char>,
    name: Seq<char>,
    config: Seq<char>,
    credentials: Seq<char>,
    h: u64,
    key: Seq<char>,
    value: Seq<char>,
)
    requires
        s0.wf(),
        s0.next_handle < u64::MAX,
        create_ok(s0, xtype, name),
        create_transition(s0, s1, pool_name, xtype, name, config, credentials),
        open_transition(s1, s2, name, h),
        set_transition(s2, s3, h, key, value),
    ensures
        open_ok(s1, name, credentials),
        has_session(s2.sessions@, h),
        get_ok(s3, h, key),
        get_value(s3, h, key) == value,
{
    lemma_created_wallet_found(s0, s1, pool_name, xtype, name, config, credentials);
    assert(open_ok(s1, name, credentials));
    // the freshly opened session stands behind its handle
    let slast = s2.sessions@.len() - 1;
    assert(s2.sessions@[slast].handle == h);
    assert forall|p: int, q: int|
        0 <= p < q < s2.sessions@.len()
            implies s2.sessions@[p].handle != s2.sessions@[q].handle by {
        if q == slast {
            assert(s2.sessions@[p] == s0.sessions@[p]);
            assert(s0.sessions@[p].handle < s0.next_handle);
        } else {
            assert(s2.sessions@[p] == s0.sessions@[p]);
            assert(s2.sessions@[q] == s0.sessions@[q]);
        }
    }
    lemma_session_at_unique(s2.sessions@, slast, h);
    assert(session_at(s2.sessions@, h).wallet_name@ == name);
    // the value stored by `set` is what `get` specifies
    assert(s3.sessions@ == s2.sessions@);
    assert(kv_has(wallet_at(s3.wallets@, name).entries@, key));
    assert(kv_at(wallet_at(s3.wallets@, name).entries@, key) == value);
}

/// Once a wallet is created under a name, no second `create` of that name
/// can succeed, whatever backend type it asks for; the first wallet's
/// descriptor, configuration and credentials stand unchanged under the
/// name, and the new wallet carries no open session, so it can be
/// deleted.  (A racing pair of `create` calls therefore has exactly one
/// winner, whichever runs first.)
pub proof fn lemma_create_excludes_second(
    s0: WalletService,
    s1: WalletService,
    pool_name: Seq<char>,
    xtype: Seq<char>,
    name: Seq<char>,
    config: Seq<char>,
    credentials: Seq<char>,
)
    requires
        s0.wf(),
        create_ok(s0, xtype, name),
        create_transition(s0, s1, pool_name, xtype, name, config, credentials),
    ensures
        has_wallet(s1.wallets@, name),
        forall|t: Seq<char>| !create_ok(s1, t, name),
        wallet_at(s1.wallets@, name).descriptor.pool_name@ == pool_name,
        wallet_at(s1.wallets@, name).descriptor.xtype@ == xtype,
        wallet_at(s1.wallets@, name).descriptor.name@ == name,
        wallet_at(s1.wallets@, name).config@ == config,
        wallet_at(s1.wallets@, name).credentials@ == credentials,
        delete_ok(s1, name),
{
    lemma_created_wallet_found(s0, s1, pool_name, xtype, name, config, credentials);
    assert(s1.sessions@ == s0.sessions@);
    assert forall|i: int|
        0 <= i < s1.sessions@.len() implies s1.sessions@[i].wallet_name@ != name by {
        if s1.sessions@[i].wallet_name@ == name {
            assert(has_wallet(s0.wallets@, name));
        }
    }
}

/// After `close`, the handle is dead: no session stands behind it (so
/// `set` and a second `close` fail), and `get` can no longer succeed on
/// it for any key.
pub proof fn lemma_close_invalidates_handle(s0: WalletService, s1: WalletService, h: u64)
    requires
        s0.wf(),
        close_transition(s0, s1, h),
    ensures
        !has_session(s1.sessions@, h),
        forall|key: Seq<char>| !get_ok(s1, h, key),
{
    assert(!has_session(s1.sessions@, h));
}

/// Two `open` calls in a row on the same wallet yield distinct handles,
/// and each handle stands behind its own live session on that wallet, so
/// each independently supports `get` and `set`.
pub proof fn lemma_two_opens_distinct(
    s0: WalletService,
    s1: WalletService,
    s2: WalletService,
    name: Seq<char>,
    h1: u64,
    h2: u64,
)
    requires
        s0.wf(),
        open_transition(s0, s1, name, h1),
        open_transition(s1, s2, name, h2),
    ensures
        h1 != h2,
        has_session(s2.sessions@, h1),
        has_session(s2.sessions@, h2),
        session_at(s2.sessions@, h1).wallet_name@ == name,
        session_at(s2.sessions@, h2).wallet_name@ == name,
{
    let i1 = s1.sessions@.len() - 1;
    let i2 = s2.sessions@.len() - 1;
    assert(s2.sessions@[i1] == s1.sessions@[i1]);
    assert(s2.sessions@[i1].handle == h1);
    assert(s2.sessions@[i2].handle == h2);
    assert forall|p: int, q: int|
        0 <= p < q < s2.sessions@.len()
            implies s2.sessions@[p].handle != s2.sessions@[q].handle by {
        if q == i2 {
            if p == i1 {
                assert(s2.sessions@[p].handle == h1);
            } else {
                assert(s2.sessions@[p] == s0.sessions@[p]);
                assert(s2.sessions@[p].handle < s0.next_handle);
            }
        } else if q == i1 {
            assert(s2.sessions@[p] == s0.sessions@[p]);
            assert(s2.sessions@[p].handle < s0.next_handle);
        } else {
            assert(s2.sessions@[p] == s0.sessions@[p]);
            assert(s2.sessions@[q] == s0.sessions@[q]);
        }
    }
    lemma_session_at_unique(s2.sessions@, i1, h1);
    lemma_session_at_unique(s2.sessions@, i2, h2);
}

} // verus!

//! The wallet service: registry of backend types, handle table, and the
//! per-wallet lifecycle state machine.
//!
//! The service owns the authoritative state of every wallet it manages:
//! which backend types are registered, which wallets exist (each with its
//! descriptor, its creation-time configuration, its credentials and its
//! key/value entries), and which sessions are open.  Handles are allocated
//! monotonically starting at one and are never reused while the service
//! lives, so a closed handle can never alias a later session.

use vstd::prelude::*;

use crate::descriptor::WalletDescriptor;
use crate::errors::WalletError;

verus! {

/// One wallet the service manages, with its backend-held storage.
pub struct WalletRecord {
    /// The persisted identity record; its `name` is the wallet's key.
    pub descriptor: WalletDescriptor,
    /// The verbatim configuration string passed at creation.
    pub config: String,
    /// The credentials that open this wallet.
    pub credentials: String,
    /// The wallet's key/value entries; keys are unique.
    pub entries: Vec<(String, String)>,
}

/// One open session: a live handle bound to a wallet.
pub struct Session {
    /// The opaque integer reference handed to the caller.
    pub handle: u64,
    /// The name of the wallet this session is open on.
    pub wallet_name: String,
}

/// The wallet service.
pub struct WalletService {
    /// Registered backend type names; the built-in type is present from
    /// the start.
    pub types: Vec<String>,
    /// Every existing wallet, keyed by its descriptor's name.
    pub wallets: Vec<WalletRecord>,
    /// The handle table: every open session.
    pub sessions: Vec<Session>,
    /// The next handle to allocate; strictly above every issued handle.
    pub next_handle: u64,
}

/// Does some string in `ts` read as `x`?
pub open spec fn contains_name(ts: Seq<String>, x: Seq<char>) -> bool {
    exists|i: int| 0 <= i < ts.len() && ts[i]@ == x
}

/// Does a wallet named `name` exist in `ws`?
pub open spec fn has_wallet(ws: Seq<WalletRecord>, name: Seq<char>) -> bool {
    exists|i: int| 0 <= i < ws.len() && ws[i].descriptor.name@ == name
}

/// The wallet named `name` (meaningful when `has_wallet` holds and names
/// are unique).
pub open spec fn wallet_at(ws: Seq<WalletRecord>, name: Seq<char>) -> WalletRecord {
    ws[choose|i: int| 0 <= i < ws.len() && ws[i].descriptor.name@ == name]
}

/// Is `h` a live handle in `ss`?
pub open spec fn has_session(ss: Seq<Session>, h: u64) -> bool {
    exists|i: int| 0 <= i < ss.len() && ss[i].handle == h
}

/// The session behind handle `h` (meaningful when `has_session` holds and
/// handles are unique).
pub open spec fn session_at(ss: Seq<Session>, h: u64) -> Session {
    ss[choose|i: int| 0 <= i < ss.len() && ss[i].handle == h]
}

/// Is some session open on the wallet named `name`?
pub open spec fn session_on(ss: Seq<Session>, name: Seq<char>) -> bool {
    exists|i: int| 0 <= i < ss.len() && ss[i].wallet_name@ == name
}

/// Does `es` hold an entry under key `k`?
pub open spec fn kv_has(es: Seq<(String, String)>, k: Seq<char>) -> bool {
    exists|i: int| 0 <= i < es.len() && es[i].0@ == k
}

/// The value under key `k` (meaningful when `kv_has` holds and keys are
/// unique).
pub open spec fn kv_at(es: Seq<(String, String)>, k: Seq<char>) -> Seq<char> {
    es[choose|i: int| 0 <= i < es.len() && es[i].0@ == k].1@
}

/// Are the keys of `es` pairwise distinct?
pub open spec fn kv_keys_unique(es: Seq<(String, String)>) -> bool {
    forall|p: int, q: int| 0 <= p < q < es.len() ==> es[p].0@ != es[q].0@
}

impl WalletService {
    /// The service's invariant: unique registry keys, unique wallet names,
    /// unique live handles all below `next_handle`, every session open on
    /// an existing wallet, every wallet's backend type registered, and
    /// unique keys inside every wallet.
    pub open spec fn wf(&self) -> bool {
        &&& forall|i: int, j: int|
            0 <= i < j < self.types@.len() ==> self.types@[i]@ != self.types@[j]@
        &&& forall|i: int, j: int|
            0 <= i < j < self.wallets@.len()
                ==> self.wallets@[i].descriptor.name@ != self.wallets@[j].descriptor.name@
        &&& forall|i: int, j: int|
            0 <= i < j < self.sessions@.len()
                ==> self.sessions@[i].handle != self.sessions@[j].handle
        &&& forall|i: int|
            0 <= i < self.sessions@.len() ==> self.sessions@[i].handle < self.next_handle
        &&& forall|i: int|
            0 <= i < self.sessions@.len()
                ==> has_wallet(self.wallets@, self.sessions@[i].wallet_name@)
        &&& forall|i: int|
            0 <= i < self.wallets@.len()
                ==> contains_name(self.types@, self.wallets@[i].descriptor.xtype@)
        &&& forall|i: int|
            0 <= i < self.wallets@.len() ==> kv_keys_unique(self.wallets@[i].entries@)
        &&& 1 <= self.next_handle
    }

    /// Is the backend type named `t` registered?
    pub open spec fn registered(&self, t: Seq<char>) -> bool {
        contains_name(self.types@, t)
    }
}

/// May `create` succeed in state `s` for this type and name?
pub open spec fn create_ok(s: WalletService, xtype: Seq<char>, name: Seq<char>) -> bool {
    s.registered(xtype) && !has_wallet(s.wallets@, name)
}

/// A successful `create`: one new wallet with exactly the given fields and
/// no entries; everything else untouched.
pub open spec fn create_transition(
    pre: WalletService,
    post: WalletService,
    pool_name: Seq<char>,
    xtype: Seq<char>,
    name: Seq<char>,
    config: Seq<char>,
    credentials: Seq<char>,
) -> bool {
    &&& post.types@ == pre.types@
    &&& post.sessions@ == pre.sessions@
    &&& post.next_handle == pre.next_handle
    &&& post.wallets@.len() == pre.wallets@.len() + 1
    &&& forall|j: int| 0 <= j < pre.wallets@.len() ==> post.wallets@[j] == pre.wallets@[j]
    &&& post.wallets@.last().descriptor.pool_name@ == pool_name
    &&& post.wallets@.last().descriptor.xtype@ == xtype
    &&& post.wallets@.last().descriptor.name@ == name
    &&& post.wallets@.last().config@ == config
    &&& post.wallets@.last().credentials@ == credentials
    &&& post.wallets@.last().entries@.len() == 0
}

/// May `open` succeed in state `s` for this name and credentials?
pub open spec fn open_ok(s: WalletService, name: Seq<char>, credentials: Seq<char>) -> bool {
    &&& has_wallet(s.wallets@, name)
    &&& wallet_at(s.wallets@, name).credentials@ == credentials
    &&& s.next_handle < u64::MAX
}

/// A successful `open`: the freshly issued handle is the old `next_handle`,
/// one new session on `name` exists, and nothing else moved.
pub open spec fn open_transition(
    pre: WalletService,
    post: WalletService,
    name: Seq<char>,
    h: u64,
) -> bool {
    &&& h == pre.next_handle
    &&& post.next_handle == pre.next_handle + 1
    &&& post.types@ == pre.types@
    &&& post.wallets@ == pre.wallets@
    &&& post.sessions@.len() == pre.sessions@.len() + 1
    &&& forall|j: int| 0 <= j < pre.sessions@.len() ==> post.sessions@[j] == pre.sessions@[j]
    &&& post.sessions@.last().handle == h
    &&& post.sessions@.last().wallet_name@ == name
}

/// A successful `close`: the handle is gone, every other session is kept,
/// and nothing else moved.
pub open spec fn close_transition(pre: WalletService, post: WalletService, h: u64) -> bool {
    &&& has_session(pre.sessions@, h)
    &&& post.types@ == pre.types@
    &&& post.wallets@ == pre.wallets@
    &&& post.next_handle == pre.next_handle
    &&& post.sessions@.len() == pre.sessions@.len() - 1
    &&& forall|h2: u64|
        #[trigger] has_session(post.sessions@, h2) <==> (has_session(pre.sessions@, h2) && h2 != h)
    &&& forall|h2: u64|
        h2 != h && has_session(pre.sessions@, h2)
            ==> #[trigger] session_at(post.sessions@, h2) == session_at(pre.sessions@, h2)
}

/// May `delete` succeed in state `s` for this name?
pub open spec fn delete_ok(s: WalletService, name: Seq<char>) -> bool {
    has_wallet(s.wallets@, name) && !session_on(s.sessions@, name)
}

/// A successful `delete`: the named wallet is gone, every other wallet is
/// kept, and nothing else moved.
pub open spec fn delete_transition(pre: WalletService, post: WalletService, name: Seq<char>) -> bool {
    &&& post.types@ == pre.types@
    &&& post.sessions@ == pre.sessions@
    &&& post.next_handle == pre.next_handle
    &&& post.wallets@.len() == pre.wallets@.len() - 1
    &&& forall|t: Seq<char>|
        #[trigger] has_wallet(post.wallets@, t) <==> (has_wallet(pre.wallets@, t) && t != name)
    &&& forall|t: Seq<char>|
        t != name && has_wallet(pre.wallets@, t)
            ==> #[trigger] wallet_at(post.wallets@, t) == wallet_at(pre.wallets@, t)
}

/// The wallet that the session behind handle `h` is open on.
pub open spec fn session_wallet(s: WalletService, h: u64) -> WalletRecord {
    wallet_at(s.wallets@, session_at(s.sessions@, h).wallet_name@)
}

/// A successful `set`: the session's wallet now holds `value` under `key`,
/// every other key and every other wallet is untouched, and nothing else
/// moved.
pub open spec fn set_transition(
    pre: WalletService,
    post: WalletService,
    h: u64,
    key: Seq<char>,
    value: Seq<char>,
) -> bool {
    let n = session_at(pre.sessions@, h).wallet_name@;
    let w0 = wallet_at(pre.wallets@, n);
    let w1 = wallet_at(post.wallets@, n);
    &&& has_session(pre.sessions@, h)
    &&& post.types@ == pre.types@
    &&& post.sessions@ == pre.sessions@
    &&& post.next_handle == pre.next_handle
    &&& post.wallets@.len() == pre.wallets@.len()
    &&& forall|t: Seq<char>|
        #[trigger] has_wallet(post.wallets@, t) <==> has_wallet(pre.wallets@, t)
    &&& forall|t: Seq<char>|
        t != n && has_wallet(pre.wallets@, t)
            ==> #[trigger] wallet_at(post.wallets@, t) == wallet_at(pre.wallets@, t)
    &&& w1.descriptor == w0.descriptor
    &&& w1.config == w0.config
    &&& w1.credentials == w0.credentials
    &&& kv_has(w1.entries@, key)
    &&& kv_at(w1.entries@, key) == value
    &&& forall|k: Seq<char>|
        k != key ==> (#[trigger] kv_has(w1.entries@, k) <==> kv_has(w0.entries@, k))
    &&& forall|k: Seq<char>|
        k != key && kv_has(w0.entries@, k)
            ==> #[trigger] kv_at(w1.entries@, k) == kv_at(w0.entries@, k)
}

/// May `get` succeed in state `s` for this handle and key?
pub open spec fn get_ok(s: WalletService, h: u64, key: Seq<char>) -> bool {
    has_session(s.sessions@, h) && kv_has(session_wallet(s, h).entries@, key)
}

/// The value a successful `get` returns.
pub open spec fn get_value(s: WalletService, h: u64, key: Seq<char>) -> Seq<char> {
    kv_at(session_wallet(s, h).entries@, key)
}

/// With unique wallet names, the wallet found at index `i` is the wallet
/// under its name.
pub proof fn lemma_wallet_at_unique(ws: Seq<WalletRecord>, i: int, name: Seq<char>)
    requires
        0 <= i < ws.len(),
        ws[i].descriptor.name@ == name,
        forall|p: int, q: int|
            0 <= p < q < ws.len() ==> ws[p].descriptor.name@ != ws[q].descriptor.name@,
    ensures
        has_wallet(ws, name),
        wallet_at(ws, name) == ws[i],
{
    assert(has_wallet(ws, name));
    let c = choose|c: int| 0 <= c < ws.len() && ws[c].descriptor.name@ == name;
    if c < i {
        assert(ws[c].descriptor.name@ != ws[i].descriptor.name@);
    }
    if i < c {
        assert(ws[i].descriptor.name@ != ws[c].descriptor.name@);
    }
}

/// With unique handles, the session found at index `i` is the session
/// behind its handle.
pub proof fn lemma_session_at_unique(ss: Seq<Session>, i: int, h: u64)
    requires
        0 <= i < ss.len(),
        ss[i].handle == h,
        forall|p: int, q: int| 0 <= p < q < ss.len() ==> ss[p].handle != ss[q].handle,
    ensures
        has_session(ss, h),
        session_at(ss, h) == ss[i],
{
    assert(has_session(ss, h));
    let c = choose|c: int| 0 <= c < ss.len() && ss[c].handle == h;
    if c < i {
        assert(ss[c].handle != ss[i].handle);
    }
    if i < c {
        assert(ss[i].handle != ss[c].handle);
    }
}

/// With unique keys, the entry found at index `i` is the entry under its
/// key.
pub proof fn lemma_kv_at_unique(es: Seq<(String, String)>, i: int, k: Seq<char>)
    requires
        0 <= i < es.len(),
        es[i].0@ == k,
        kv_keys_unique(es),
    ensures
        kv_has(es, k),
        kv_at(es, k) == es[i].1@,
{
    assert(kv_has(es, k));
    let c = choose|c: int| 0 <= c < es.len() && es[c].0@ == k;
    if c < i {
        assert(es[c].0@ != es[i].0@);
    }
    if i < c {
        assert(es[i].0@ != es[c].0@);
    }
}

/// Content-wise string equality for executable code.
fn str_eq(a: &str, b: &str) -> (r: bool)
    ensures
        r == (a@ == b@),
{
    let sa: String = a.to_owned();
    let sb: String = b.to_owned();
    sa == sb
}

/// Find `x` among the registered type names.
fn find_type(ts: &Vec<String>, x: &str) -> (r: Option<usize>)
    ensures
        match r {
            Option::Some(i) => i < ts@.len() && ts@[i as int]@ == x@,
            Option::None => !contains_name(ts@, x@),
        },
{
    let mut i: usize = 0;
    while i < ts.len()
        invariant
            i <= ts@.len(),
            forall|j: int| 0 <= j < i ==> ts@[j]@ != x@,
        decreases ts@.len() - i,
    {
        if str_eq(ts[i].as_str(), x) {
            return Some(i);
        }
        i += 1;
    }
    None
}

/// Find the wallet named `name`.
fn find_wallet(ws: &Vec<WalletRecord>, name: &str) -> (r: Option<usize>)
    ensures
        match r {
            Option::Some(i) => i < ws@.len() && ws@[i as int].descriptor.name@ == name@,
            Option::None => !has_wallet(ws@, name@),
        },
{
    let mut i: usize = 0;
    while i < ws.len()
        invariant
            i <= ws@.len(),
            forall|j: int| 0 <= j < i ==> ws@[j].descriptor.name@ != name@,
        decreases ws@.len() - i,
    {
        if str_eq(ws[i].descriptor.name.as_str(), name) {
            return Some(i);
        }
        i += 1;
    }
    None
}

/// Find the session behind handle `h`.
fn find_session(ss: &Vec<Session>, h: u64) -> (r: Option<usize>)
    ensures
        match r {
            Option::Some(i) => i < ss@.len() && ss@[i as int].handle == h,
            Option::None => !has_session(ss@, h),
        },
{
    let mut i: usize = 0;
    while i < ss.len()
        invariant
            i <= ss@.len(),
            forall|j: int| 0 <= j < i ==> ss@[j].handle != h,
        decreases ss@.len() - i,
    {
        if ss[i].handle == h {
            return Some(i);
        }
        i += 1;
    }
    None
}

/// Find any session open on the wallet named `name`.
fn find_session_on(ss: &Vec<Session>, name: &str) -> (r: Option<usize>)
    ensures
        match r {
            Option::Some(i) => i < ss@.len() && ss@[i as int].wallet_name@ == name@,
            Option::None => !session_on(ss@, name@),
        },
{
    let mut i: usize = 0;
    while i < ss.len()
        invariant
            i <= ss@.len(),
            forall|j: int| 0 <= j < i ==> ss@[j].wallet_name@ != name@,
        decreases ss@.len() - i,
    {
        if str_eq(ss[i].wallet_name.as_str(), name) {
            return Some(i);
        }
        i += 1;
    }
    None
}

/// Find the entry under key `k`.
fn find_entry(es: &Vec<(String, String)>, k: &str) -> (r: Option<usize>)
    ensures
        match r {
            Option::Some(i) => i < es@.len() && es@[i as int].0@ == k@,
            Option::None => !kv_has(es@, k@),
        },
{
    let mut i: usize = 0;
    while i < es.len()
        invariant
            i <= es@.len(),
            forall|j: int| 0 <= j < i ==> es@[j].0@ != k@,
        decreases es@.len() - i,
    {
        if str_eq(es[i].0.as_str(), k) {
            return Some(i);
        }
        i += 1;
    }
    None
}

impl WalletService {
    /// A fresh service: the built-in backend type registered, no wallets,
    /// no sessions, handles starting at one.
    pub fn new() -> (s: WalletService)
        ensures
            s.wf(),
            s.types@.len() == 1,
            s.types@[0]@ == "default"@,
            s.wallets@.len() == 0,
            s.sessions@.len() == 0,
            s.next_handle == 1,
    {
        let mut types: Vec<String> = Vec::new();
        types.push(String::from_str("default"));
        WalletService { types, wallets: Vec::new(), sessions: Vec::new(), next_handle: 1 }
    }

    /// Register a new backend type name.  Fails `AlreadyExists` on a
    /// collision, so a live type can never be swapped silently.
    pub fn resiter_type(&mut self, xtype: &str) -> (r: Result<(), WalletError>)
        requires
            old(self).wf(),
        ensures
            final(self).wf(),
            old(self).registered(xtype@) ==> {
                &&& r matches Err(WalletError::AlreadyExists(t)) && t@ == xtype@
                &&& *final(self) == *old(self)
            },
            !old(self).registered(xtype@) ==> {
                &&& r is Ok
                &&& final(self).types@.len() == old(self).types@.len() + 1
                &&& final(self).types@.last()@ == xtype@
                &&& forall|j: int| 0 <= j < old(self).types@.len()
                    ==> final(self).types@[j] == old(self).types@[j]
                &&& final(self).wallets@ == old(self).wallets@
                &&& final(self).sessions@ == old(self).sessions@
                &&& final(self).next_handle == old(self).next_handle
            },
            forall|t: Seq<char>|
                #[trigger] final(self).registered(t) <==> (old(self).registered(t) || t == xtype@),
    {
        if find_type(&self.types, xtype).is_some() {
            return Err(WalletError::AlreadyExists(xtype.to_owned()));
        }
        self.types.push(xtype.to_owned());
        proof {
            assert forall|i: int, j: int|
                0 <= i < j < self.types@.len() implies self.types@[i]@ != self.types@[j]@ by {
                if j == self.types@.len() - 1 {
                    assert(self.types@[i] == old(self).types@[i]);
                    if self.types@[i]@ == xtype@ {
                        assert(old(self).registered(xtype@));
                    }
                }
            }
            assert forall|i: int|
                0 <= i < self.wallets@.len()
                    implies contains_name(self.types@, self.wallets@[i].descriptor.xtype@) by {
                let x = self.wallets@[i].descriptor.xtype@;
                assert(contains_name(old(self).types@, x));
                let k = choose|k: int|
                    0 <= k < old(self).types@.len() && old(self).types@[k]@ == x;
                assert(self.types@[k]@ == x);
            }
            assert forall|t: Seq<char>|
                #[trigger] self.registered(t) implies (old(self).registered(t) || t == xtype@) by {
                if self.registered(t) {
                    let i = choose|i: int| 0 <= i < self.types@.len() && self.types@[i]@ == t;
                    if i < old(self).types@.len() {
                        assert(old(self).types@[i]@ == t);
                    }
                }
            }
            assert forall|t: Seq<char>|
                old(self).registered(t) || t == xtype@ implies #[trigger] self.registered(t) by {
                if old(self).registered(t) {
                    let i = choose|i: int| 0 <= i < old(self).types@.len() && old(self).types@[i]@ == t;
                    assert(self.types@[i]@ == t);
                } else {
                    assert(self.types@.last()@ == t);
                }
            }
        }
        Ok(())
    }

    /// Create a wallet: fail `UnknownType` if the backend type is not
    /// registered, `AlreadyExists` if the name is taken (either failure
    /// leaves every wallet untouched); otherwise install a new, empty
    /// wallet with exactly the given descriptor, configuration and
    /// credentials.
    pub fn create(
        &mut self,
        pool_name: &str,
        xtype: &str,
        name: &str,
        config: &str,
        credentials: &str,
    ) -> (r: Result<(), WalletError>)
        requires
            old(self).wf(),
        ensures
            final(self).wf(),
            !old(self).registered(xtype@) ==> {
                &&& r matches Err(WalletError::UnknownType(t)) && t@ == xtype@
                &&& *final(self) == *old(self)
            },
            old(self).registered(xtype@) && has_wallet(old(self).wallets@, name@) ==> {
                &&& r matches Err(WalletError::AlreadyExists(n)) && n@ == name@
                &&& *final(self) == *old(self)
            },
            create_ok(*old(self), xtype@, name@) ==> {
                &&& r is Ok
                &&& create_transition(
                    *old(self), *final(self), pool_name@, xtype@, name@, config@, credentials@)
            },
            r is Ok <==> create_ok(*old(self), xtype@, name@),
    {
        if find_type(&self.types, xtype).is_none() {
            return Err(WalletError::UnknownType(xtype.to_owned()));
        }
        if find_wallet(&self.wallets, name).is_some() {
            return Err(WalletError::AlreadyExists(name.to_owned()));
        }
        let record = WalletRecord {
            descriptor: WalletDescriptor::new(pool_name, xtype, name),
            config: config.to_owned(),
            credentials: credentials.to_owned(),
            entries: Vec::new(),
        };
        self.wallets.push(record);
        proof {
            let ghost pre = *old(self);
            assert forall|i: int|
                0 <= i < self.wallets@.len()
                    implies contains_name(self.types@, self.wallets@[i].descriptor.xtype@) by {
                if i < pre.wallets@.len() {
                    assert(pre.wallets@[i] == self.wallets@[i]);
                }
            }
            assert forall|i: int|
                0 <= i < self.sessions@.len()
                    implies has_wallet(self.wallets@, self.sessions@[i].wallet_name@) by {
                let n = self.sessions@[i].wallet_name@;
                assert(has_wallet(pre.wallets@, n));
                let j = choose|j: int|
                    0 <= j < pre.wallets@.len() && pre.wallets@[j].descriptor.name@ == n;
                assert(self.wallets@[j].descriptor.name@ == n);
            }
        }
        Ok(())
    }

    /// Delete a wallet: fail `NotFound` without a descriptor for the name,
    /// `ResourceBusy` while a session is still open on it, `UnknownType`
    /// if its backend type were ever unregistered (the invariant rules
    /// that out, but the descriptor is still checked); otherwise remove
    /// the wallet and everything it holds.
    pub fn delete(&mut self, name: &str) -> (r: Result<(), WalletError>)
        requires
            old(self).wf(),
        ensures
            final(self).wf(),
            !has_wallet(old(self).wallets@, name@) ==> {
                &&& r matches Err(WalletError::NotFound(n)) && n@ == name@
                &&& *final(self) == *old(self)
            },
            has_wallet(old(self).wallets@, name@) && session_on(old(self).sessions@, name@) ==> {
                &&& r matches Err(WalletError::ResourceBusy(n)) && n@ == name@
                &&& *final(self) == *old(self)
            },
            delete_ok(*old(self), name@) ==> {
                &&& r is Ok
                &&& delete_transition(*old(self), *final(self), name@)
            },
            r is Ok <==> delete_ok(*old(self), name@),
    {
        let wi = match find_wallet(&self.wallets, name) {
            Some(i) => i,
            None => {
                return Err(WalletError::NotFound(name.to_owned()));
            },
        };
        if find_session_on(&self.sessions, name).is_some() {
            return Err(WalletError::ResourceBusy(name.to_owned()));
        }
        if find_type(&self.types, self.wallets[wi].descriptor.xtype.as_str()).is_none() {
            // Unreachable while the invariant holds: every wallet's type
            // stays registered.  The descriptor is still consulted, as a
            // reader of the persisted record would.
            return Err(WalletError::UnknownType(self.wallets[wi].descriptor.xtype.clone()));
        }
        let ghost pre = *old(self);
        self.wallets.remove(wi);
        proof {
            pre.wallets@.remove_ensures(wi as int);
            assert forall|t: Seq<char>|
                #[trigger] has_wallet(self.wallets@, t)
                    implies (has_wallet(pre.wallets@, t) && t != name@) by {
                let j = choose|j: int|
                    0 <= j < self.wallets@.len() && self.wallets@[j].descriptor.name@ == t;
                if j < wi {
                    assert(pre.wallets@[j].descriptor.name@ == t);
                    assert(pre.wallets@[j].descriptor.name@ != pre.wallets@[wi as int].descriptor.name@);
                } else {
                    assert(pre.wallets@[j + 1].descriptor.name@ == t);
                    assert(pre.wallets@[wi as int].descriptor.name@ != pre.wallets@[j + 1].descriptor.name@);
                }
            }
            assert forall|t: Seq<char>|
                has_wallet(pre.wallets@, t) && t != name@
                    implies #[trigger] has_wallet(self.wallets@, t) by {
                let j = choose|j: int|
                    0 <= j < pre.wallets@.len() && pre.wallets@[j].descriptor.name@ == t;
                if j < wi {
                    assert(self.wallets@[j].descriptor.name@ == t);
                } else {
                    assert(j != wi);
                    assert(self.wallets@[j - 1].descriptor.name@ == t);
                }
            }
            assert forall|t: Seq<char>|
                t != name@ && has_wallet(pre.wallets@, t)
                    implies #[trigger] wallet_at(self.wallets@, t) == wallet_at(pre.wallets@, t) by {
                let j = choose|j: int|
                    0 <= j < pre.wallets@.len() && pre.wallets@[j].descriptor.name@ == t;
                lemma_wallet_at_unique(pre.wallets@, j, t);
                if j < wi {
                    lemma_wallet_at_unique(self.wallets@, j, t);
                } else {
                    assert(j != wi);
                    assert(self.wallets@[j - 1] == pre.wallets@[j]);
                    lemma_wallet_at_unique(self.wallets@, j - 1, t);
                }
            }
            assert forall|i: int|
                0 <= i < self.sessions@.len()
                    implies has_wallet(self.wallets@, self.sessions@[i].wallet_name@) by {
                assert(self.sessions@[i].wallet_name@ != name@);
                assert(has_wallet(pre.wallets@, self.sessions@[i].wallet_name@));
            }
            assert forall|i: int|
                0 <= i < self.wallets@.len()
                    implies contains_name(self.types@, self.wallets@[i].descriptor.xtype@) by {
                if i < wi {
                    assert(self.wallets@[i] == pre.wallets@[i]);
                } else {
                    assert(self.wallets@[i] == pre.wallets@[i + 1]);
                }
            }
            assert forall|i: int|
                0 <= i < self.wallets@.len()
                    implies kv_keys_unique(self.wallets@[i].entries@) by {
                if i < wi {
                    assert(self.wallets@[i] == pre.wallets@[i]);
                } else {
                    assert(self.wallets@[i] == pre.wallets@[i + 1]);
                }
            }
        }
        Ok(())
    }

    /// Open a wallet: fail `NotFound` without a wallet under the name,
    /// `AuthenticationFailed` on wrong credentials, `IOError` if the
    /// handle space is exhausted; otherwise install a new session and
    /// return its handle, which no session ever carried before.
    pub fn open(&mut self, name: &str, credentials: &str) -> (r: Result<u64, WalletError>)
        requires
            old(self).wf(),
        ensures
            final(self).wf(),
            !has_wallet(old(self).wallets@, name@) ==> {
                &&& r matches Err(WalletError::NotFound(n)) && n@ == name@
                &&& *final(self) == *old(self)
            },
            has_wallet(old(self).wallets@, name@)
                && wallet_at(old(self).wallets@, name@).credentials@ != credentials@ ==> {
                &&& r matches Err(WalletError::AuthenticationFailed(n)) && n@ == name@
                &&& *final(self) == *old(self)
            },
            has_wallet(old(self).wallets@, name@)
                && wallet_at(old(self).wallets@, name@).credentials@ == credentials@
                && old(self).next_handle == u64::MAX ==> {
                &&& r matches Err(WalletError::IOError(_))
                &&& *final(self) == *old(self)
            },
            open_ok(*old(self), name@, credentials@) ==> {
                &&& r matches Ok(h)
                &&& open_transition(*old(self), *final(self), name@, h)
                &&& !has_session(old(self).sessions@, h)
            },
            r is Ok <==> open_ok(*old(self), name@, credentials@),
    {
        let wi = match find_wallet(&self.wallets, name) {
            Some(i) => i,
            None => {
                return Err(WalletError::NotFound(name.to_owned()));
            },
        };
        proof {
            lemma_wallet_at_unique(self.wallets@, wi as int, name@);
        }
        if !str_eq(self.wallets[wi].credentials.as_str(), credentials) {
            return Err(WalletError::AuthenticationFailed(name.to_owned()));
        }
        if self.next_handle == u64::MAX {
            return Err(WalletError::IOError(String::from_str("handle space exhausted")));
        }
        let h = self.next_handle;
        self.next_handle = self.next_handle + 1;
        self.sessions.push(Session { handle: h, wallet_name: name.to_owned() });
        proof {
            let ghost pre = *old(self);
            assert forall|i: int, j: int|
                0 <= i < j < self.sessions@.len()
                    implies self.sessions@[i].handle != self.sessions@[j].handle by {
                if j == self.sessions@.len() - 1 {
                    assert(pre.sessions@[i].handle < h);
                }
            }
            assert forall|i: int|
                0 <= i < self.sessions@.len()
                    implies has_wallet(self.wallets@, self.sessions@[i].wallet_name@) by {
                if i == self.sessions@.len() - 1 {
                    assert(self.wallets@[wi as int].descriptor.name@ == name@);
                } else {
                    assert(pre.sessions@[i] == self.sessions@[i]);
                }
            }
        }
        Ok(h)
    }

    /// Close a session: fail `InvalidHandle` unless the handle is live
    /// (so a double close fails); otherwise remove exactly that session.
    pub fn close(&mut self, handle: u64) -> (r: Result<(), WalletError>)
        requires
            old(self).wf(),
        ensures
            final(self).wf(),
            !has_session(old(self).sessions@, handle) ==> {
                &&& r matches Err(WalletError::InvalidHandle(h)) && h == handle
                &&& *final(self) == *old(self)
            },
            has_session(old(self).sessions@, handle) ==> {
                &&& r is Ok
                &&& close_transition(*old(self), *final(self), handle)
            },
    {
        let si = match find_session(&self.sessions, handle) {
            Some(i) => i,
            None => {
                return Err(WalletError::InvalidHandle(handle));
            },
        };
        let ghost pre = *old(self);
        self.sessions.remove(si);
        proof {
            pre.sessions@.remove_ensures(si as int);
            assert forall|h2: u64|
                #[trigger] has_session(self.sessions@, h2)
                    implies (has_session(pre.sessions@, h2) && h2 != handle) by {
                let j = choose|j: int|
                    0 <= j < self.sessions@.len() && self.sessions@[j].handle == h2;
                if j < si {
                    assert(pre.sessions@[j].handle == h2);
                    assert(pre.sessions@[j].handle != pre.sessions@[si as int].handle);
                } else {
                    assert(pre.sessions@[j + 1].handle == h2);
                    assert(pre.sessions@[si as int].handle != pre.sessions@[j + 1].handle);
                }
            }
            assert forall|h2: u64|
                has_session(pre.sessions@, h2) && h2 != handle
                    implies #[trigger] has_session(self.sessions@, h2) by {
                let j = choose|j: int|
                    0 <= j < pre.sessions@.len() && pre.sessions@[j].handle == h2;
                if j < si {
                    assert(self.sessions@[j].handle == h2);
                } else {
                    assert(j != si);
                    assert(self.sessions@[j - 1].handle == h2);
                }
            }
            assert forall|h2: u64|
                h2 != handle && has_session(pre.sessions@, h2)
                    implies #[trigger] session_at(self.sessions@, h2)
                        == session_at(pre.sessions@, h2) by {
                let j = choose|j: int|
                    0 <= j < pre.sessions@.len() && pre.sessions@[j].handle == h2;
                lemma_session_at_unique(pre.sessions@, j, h2);
                if j < si {
                    lemma_session_at_unique(self.sessions@, j, h2);
                } else {
                    assert(j != si);
                    assert(self.sessions@[j - 1] == pre.sessions@[j]);
                    lemma_session_at_unique(self.sessions@, j - 1, h2);
                }
            }
            assert forall|i: int|
                0 <= i < self.sessions@.len()
                    implies has_wallet(self.wallets@, self.sessions@[i].wallet_name@) by {
                if i < si {
                    assert(self.sessions@[i] == pre.sessions@[i]);
                } else {
                    assert(self.sessions@[i] == pre.sessions@[i + 1]);
                }
            }
            assert forall|i: int, j: int|
                0 <= i < j < self.sessions@.len()
                    implies self.sessions@[i].handle != self.sessions@[j].handle by {
                let pi: int = if i < si { i } else { i + 1 };
                let pj: int = if j < si { j } else { j + 1 };
                assert(self.sessions@[i] == pre.sessions@[pi]);
                assert(self.sessions@[j] == pre.sessions@[pj]);
            }
            assert forall|i: int|
                0 <= i < self.sessions@.len()
                    implies self.sessions@[i].handle < self.next_handle by {
                if i < si {
                    assert(self.sessions@[i] == pre.sessions@[i]);
                } else {
                    assert(self.sessions@[i] == pre.sessions@[i + 1]);
                }
            }
        }
        Ok(())
    }

    /// Read a value: fail `InvalidHandle` unless the handle is live,
    /// `NotFound` without an entry under the key; otherwise return exactly
    /// the stored value.
    pub fn get(&self, handle: u64, key: &str) -> (r: Result<String, WalletError>)
        requires
            self.wf(),
        ensures
            !has_session(self.sessions@, handle) ==> (r matches Err(WalletError::InvalidHandle(
                h,
            )) && h == handle),
            has_session(self.sessions@, handle) && !kv_has(
                session_wallet(*self, handle).entries@,
                key@,
            ) ==> (r matches Err(WalletError::NotFound(k)) && k@ == key@),
            get_ok(*self, handle, key@) ==> (r matches Ok(v) && v@ == get_value(
                *self,
                handle,
                key@,
            )),
            r is Ok <==> get_ok(*self, handle, key@),
    {
        let si = match find_session(&self.sessions, handle) {
            Some(i) => i,
            None => {
                return Err(WalletError::InvalidHandle(handle));
            },
        };
        proof {
            lemma_session_at_unique(self.sessions@, si as int, handle);
        }
        let wi = match find_wallet(&self.wallets, self.sessions[si].wallet_name.as_str()) {
            Some(i) => i,
            None => {
                // Unreachable while the invariant holds: every session is
                // open on an existing wallet.
                return Err(WalletError::InvalidHandle(handle));
            },
        };
        proof {
            lemma_wallet_at_unique(self.wallets@, wi as int, self.sessions@[si as int].wallet_name@);
        }
        let ei = match find_entry(&self.wallets[wi].entries, key) {
            Some(i) => i,
            None => {
                return Err(WalletError::NotFound(key.to_owned()));
            },
        };
        proof {
            lemma_kv_at_unique(self.wallets@[wi as int].entries@, ei as int, key@);
        }
        Ok(self.wallets[wi].entries[ei].1.clone())
    }

    /// Store a value: fail `InvalidHandle` unless the handle is live;
    /// otherwise bind `value` to `key` in the session's wallet, replacing
    /// any earlier value and touching no other key and no other wallet.
    pub fn set(&mut self, handle: u64, key: &str, value: &str) -> (r: Result<(), WalletError>)
        requires
            old(self).wf(),
        ensures
            final(self).wf(),
            !has_session(old(self).sessions@, handle) ==> {
                &&& r matches Err(WalletError::InvalidHandle(h)) && h == handle
                &&& *final(self) == *old(self)
            },
            has_session(old(self).sessions@, handle) ==> {
                &&& r is Ok
                &&& set_transition(*old(self), *final(self), handle, key@, value@)
            },
    {
        let si = match find_session(&self.sessions, handle) {
            Some(i) => i,
            None => {
                return Err(WalletError::InvalidHandle(handle));
            },
        };
        proof {
            lemma_session_at_unique(self.sessions@, si as int, handle);
        }
        let wi = match find_wallet(&self.wallets, self.sessions[si].wallet_name.as_str()) {
            Some(i) => i,
            None => {
                // Unreachable while the invariant holds.
                return Err(WalletError::InvalidHandle(handle));
            },
        };
        proof {
            lemma_wallet_at_unique(self.wallets@, wi as int, self.sessions@[si as int].wallet_name@);
        }
        let ghost pre = *old(self);
        let ghost n = self.sessions@[si as int].wallet_name@;
        let new_pair = (key.to_owned(), value.to_owned());
        let ei = find_entry(&self.wallets[wi].entries, key);
        match ei {
            Some(j) => {
                self.wallets[wi].entries[j] = new_pair;
            },
            None => {
                self.wallets[wi].entries.push(new_pair);
            },
        }
        proof {
            let w0 = pre.wallets@[wi as int];
            let w1 = self.wallets@[wi as int];
            assert(w1.descriptor == w0.descriptor);
            assert forall|i: int|
                0 <= i < self.wallets@.len() && i != wi
                    implies self.wallets@[i] == pre.wallets@[i] by {}
            // keys of the target wallet stay unique
            assert(kv_keys_unique(w0.entries@));
            assert forall|p: int, q: int|
                0 <= p < q < w1.entries@.len() implies w1.entries@[p].0@ != w1.entries@[q].0@ by {
                match ei {
                    Some(j) => {
                        assert(w1.entries@[p].0@ == if p == j { key@ } else { w0.entries@[p].0@ });
                        assert(w1.entries@[q].0@ == if q == j { key@ } else { w0.entries@[q].0@ });
                        assert(w0.entries@[j as int].0@ == key@);
                    },
                    None => {
                        if q == w1.entries@.len() - 1 {
                            assert(w0.entries@[p].0@ != key@);
                        }
                    },
                }
            }
            // the target wallet is still found under its name
            lemma_wallet_at_unique(pre.wallets@, wi as int, n);
            assert forall|i: int, j: int|
                0 <= i < j < self.wallets@.len()
                    implies self.wallets@[i].descriptor.name@ != self.wallets@[j].descriptor.name@ by {
                assert(self.wallets@[i].descriptor == pre.wallets@[i].descriptor);
                assert(self.wallets@[j].descriptor == pre.wallets@[j].descriptor);
            }
            lemma_wallet_at_unique(self.wallets@, wi as int, n);
            assert forall|t: Seq<char>|
                #[trigger] has_wallet(self.wallets@, t) <==> has_wallet(pre.wallets@, t) by {
                if has_wallet(self.wallets@, t) {
                    let j = choose|j: int|
                        0 <= j < self.wallets@.len() && self.wallets@[j].descriptor.name@ == t;
                    assert(pre.wallets@[j].descriptor.name@ == t);
                }
                if has_wallet(pre.wallets@, t) {
                    let j = choose|j: int|
                        0 <= j < pre.wallets@.len() && pre.wallets@[j].descriptor.name@ == t;
                    assert(self.wallets@[j].descriptor.name@ == t);
                }
            }
            assert forall|t: Seq<char>|
                t != n && has_wallet(pre.wallets@, t)
                    implies #[trigger] wallet_at(self.wallets@, t) == wallet_at(pre.wallets@, t) by {
                let j = choose|j: int|
                    0 <= j < pre.wallets@.len() && pre.wallets@[j].descriptor.name@ == t;
                lemma_wallet_at_unique(pre.wallets@, j, t);
                assert(j != wi);
                assert(self.wallets@[j] == pre.wallets@[j]);
                lemma_wallet_at_unique(self.wallets@, j, t);
            }
            // key/value claims on the target wallet
            match ei {
                Some(j) => {
                    lemma_kv_at_unique(w1.entries@, j as int, key@);
                },
                None => {
                    lemma_kv_at_unique(w1.entries@, w1.entries@.len() - 1, key@);
                },
            }
            assert forall|k: Seq<char>|
                k != key@ implies (#[trigger] kv_has(w1.entries@, k) <==> kv_has(w0.entries@, k)) by {
                if kv_has(w1.entries@, k) {
                    let p = choose|p: int| 0 <= p < w1.entries@.len() && w1.entries@[p].0@ == k;
                    match ei {
                        Some(j) => {
                            assert(p != j);
                            assert(w0.entries@[p].0@ == k);
                        },
                        None => {
                            assert(p != w1.entries@.len() - 1);
                            assert(w0.entries@[p].0@ == k);
                        },
                    }
                }
                if kv_has(w0.entries@, k) {
                    let p = choose|p: int| 0 <= p < w0.entries@.len() && w0.entries@[p].0@ == k;
                    match ei {
                        Some(j) => {
                            assert(p != j);
                            assert(w1.entries@[p].0@ == k);
                        },
                        None => {
                            assert(w1.entries@[p].0@ == k);
                        },
                    }
                }
            }
            assert forall|k: Seq<char>|
                k != key@ && kv_has(w0.entries@, k)
                    implies #[trigger] kv_at(w1.entries@, k) == kv_at(w0.entries@, k) by {
                let p = choose|p: int| 0 <= p < w0.entries@.len() && w0.entries@[p].0@ == k;
                lemma_kv_at_unique(w0.entries@, p, k);
                match ei {
                    Some(j) => {
                        assert(p != j);
                        assert(w1.entries@[p] == w0.entries@[p]);
                        lemma_kv_at_unique(w1.entries@, p, k);
                    },
                    None => {
                        assert(w1.entries@[p] == w0.entries@[p]);
                        lemma_kv_at_unique(w1.entries@, p, k);
                    },
                }
            }
            // the remaining invariant conjuncts
            assert forall|i: int|
                0 <= i < self.wallets@.len()
                    implies contains_name(self.types@, self.wallets@[i].descriptor.xtype@) by {
                assert(self.wallets@[i].descriptor == pre.wallets@[i].descriptor);
            }
            assert forall|i: int|
                0 <= i < self.sessions@.len()
                    implies has_wallet(self.wallets@, self.sessions@[i].wallet_name@) by {
                let t = self.sessions@[i].wallet_name@;
                assert(has_wallet(pre.wallets@, t));
                let j = choose|j: int|
                    0 <= j < pre.wallets@.len() && pre.wallets@[j].descriptor.name@ == t;
                assert(self.wallets@[j].descriptor.name@ == t);
            }
            assert forall|i: int|
                0 <= i < self.wallets@.len() implies kv_keys_unique(self.wallets@[i].entries@) by {
                if i != wi {
                    assert(self.wallets@[i] == pre.wallets@[i]);
                }
            }
        }
        Ok(())
    }
}

} // verus!

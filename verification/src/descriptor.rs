//! The wallet descriptor: the small persisted record that makes a wallet's
//! backend type recoverable without external bookkeeping, together with a
//! lossless text encoding for it.
//!
//! The encoding is a length-prefixed record: each field is written as one
//! `'#'` mark per character, then `':'`, then the field's characters, and
//! the three fields (pool name, backend type, wallet name) follow each
//! other with nothing in between.  Every string field round-trips exactly,
//! including empty fields and fields holding `'#'`, `':'` or any other
//! character.

use vstd::prelude::*;

use crate::errors::WalletError;

verus! {

/// The persisted per-wallet record: pool name, backend type, wallet name.
/// Written exactly once at creation; read (never mutated) by open and
/// delete; destroyed only when the wallet is deleted.
pub struct WalletDescriptor {
    pub pool_name: String,
    pub xtype: String,
    pub name: String,
}

impl WalletDescriptor {
    pub fn new(pool_name: &str, xtype: &str, name: &str) -> (d: WalletDescriptor)
        ensures
            d.pool_name@ == pool_name@,
            d.xtype@ == xtype@,
            d.name@ == name@,
    {
        WalletDescriptor {
            pool_name: pool_name.to_owned(),
            xtype: xtype.to_owned(),
            name: name.to_owned(),
        }
    }
}

/// `n` copies of the length mark.
pub open spec fn marks(n: nat) -> Seq<char> {
    Seq::new(n, |i: int| '#')
}

/// One encoded field: its length in marks, a separator, then the field.
pub open spec fn field_enc(s: Seq<char>) -> Seq<char> {
    marks(s.len()) + seq![':'] + s
}

/// The whole encoded descriptor: the three fields in a fixed order.
pub open spec fn descriptor_enc(pool_name: Seq<char>, xtype: Seq<char>, name: Seq<char>) -> Seq<char> {
    field_enc(pool_name) + field_enc(xtype) + field_enc(name)
}

/// How many length marks stand at the front of `s`.
pub open spec fn count_marks(s: Seq<char>) -> nat
    decreases s.len(),
{
    if s.len() == 0 || s[0] != '#' {
        0
    } else {
        count_marks(s.skip(1)) + 1
    }
}

/// Parse one encoded field from the front of `s`: the field and what
/// follows it, or nothing if `s` does not start with a well-formed field.
pub open spec fn parse_field(s: Seq<char>) -> Option<(Seq<char>, Seq<char>)> {
    let n = count_marks(s) as int;
    if n < s.len() && s[n] == ':' && n + 1 + n <= s.len() {
        Some((s.subrange(n + 1, n + 1 + n), s.subrange(n + 1 + n, s.len() as int)))
    } else {
        None
    }
}

/// Parse a whole descriptor: three fields and nothing after them.
pub open spec fn descriptor_dec(s: Seq<char>) -> Option<(Seq<char>, Seq<char>, Seq<char>)> {
    match parse_field(s) {
        Option::None => Option::None,
        Option::Some(p1) => match parse_field(p1.1) {
            Option::None => Option::None,
            Option::Some(p2) => match parse_field(p2.1) {
                Option::None => Option::None,
                Option::Some(p3) => if p3.1.len() == 0 {
                    Option::Some((p1.0, p2.0, p3.0))
                } else {
                    Option::None
                },
            },
        },
    }
}

/// If the first `n` characters of `s` are marks and the next one (if any)
/// is not, then exactly `n` marks stand at the front.
proof fn lemma_count_marks_exact(s: Seq<char>, n: nat)
    requires
        n <= s.len(),
        forall|j: int| 0 <= j < n ==> s[j] == '#',
        n == s.len() || s[n as int] != '#',
    ensures
        count_marks(s) == n,
    decreases n,
{
    if n == 0 {
    } else {
        assert(s[0] == '#');
        let t = s.skip(1);
        assert(forall|j: int| 0 <= j < n - 1 ==> t[j] == s[j + 1]);
        lemma_count_marks_exact(t, (n - 1) as nat);
    }
}

/// Parsing undoes encoding for a single field, whatever follows it.
proof fn lemma_parse_field_enc(s: Seq<char>, rest: Seq<char>)
    ensures
        parse_field(field_enc(s) + rest) == Some((s, rest)),
{
    let n = s.len() as int;
    let t = field_enc(s) + rest;
    assert(forall|j: int| 0 <= j < n ==> t[j] == '#');
    assert(t[n] == ':');
    lemma_count_marks_exact(t, n as nat);
    assert(t.subrange(n + 1, n + 1 + n) =~= s);
    assert(t.subrange(n + 1 + n, t.len() as int) =~= rest);
}

/// Round trip: decoding an encoded descriptor yields exactly the three
/// fields that were encoded, for all field values.
pub proof fn lemma_descriptor_round_trip(pool_name: Seq<char>, xtype: Seq<char>, name: Seq<char>)
    ensures
        descriptor_dec(descriptor_enc(pool_name, xtype, name)) == Some((pool_name, xtype, name)),
{
    let e = descriptor_enc(pool_name, xtype, name);
    let rest1 = field_enc(xtype) + field_enc(name);
    assert(e =~= field_enc(pool_name) + rest1);
    lemma_parse_field_enc(pool_name, rest1);
    lemma_parse_field_enc(xtype, field_enc(name));
    lemma_parse_field_enc(name, Seq::<char>::empty());
    assert(field_enc(name) + Seq::<char>::empty() =~= field_enc(name));
}

/// Append one encoded field to `out`.
fn append_field(out: &mut String, field: &str)
    ensures
        final(out)@ == old(out)@ + field_enc(field@),
{
    let n = field.unicode_len();
    let mut i: usize = 0;
    while i < n
        invariant
            i <= n,
            n == field@.len(),
            out@ == old(out)@ + marks(i as nat),
        decreases n - i,
    {
        out.append("#");
        proof {
            reveal_strlit("#");
            assert(out@ =~= old(out)@ + marks((i + 1) as nat));
        }
        i += 1;
    }
    out.append(":");
    out.append(field);
    proof {
        reveal_strlit(":");
        assert(out@ =~= old(out)@ + field_enc(field@));
    }
}

/// Parse one encoded field of `s` starting at character `start`: the field
/// and the position just after it, or nothing if no well-formed field
/// starts there.
fn parse_field_at(s: &str, start: usize) -> (r: Option<(String, usize)>)
    requires
        start <= s@.len(),
    ensures
        match parse_field(s@.skip(start as int)) {
            Option::Some(p) => {
                &&& r matches Some(q)
                &&& q.0@ == p.0
                &&& start <= q.1 <= s@.len()
                &&& p.1 == s@.skip(q.1 as int)
            },
            Option::None => r is None,
        },
{
    let len = s.unicode_len();
    let ghost tail = s@.skip(start as int);
    let mut pos: usize = start;
    while pos < len && s.get_char(pos) == '#'
        invariant
            start <= pos <= len,
            len == s@.len(),
            forall|j: int| start <= j < pos ==> s@[j] == '#',
        decreases len - pos,
    {
        pos += 1;
    }
    proof {
        assert(forall|j: int| 0 <= j < pos - start ==> tail[j] == '#');
        lemma_count_marks_exact(tail, (pos - start) as nat);
    }
    if pos == len {
        return None;
    }
    let c = s.get_char(pos);
    if c != ':' {
        return None;
    }
    let after = pos + 1;
    if pos - start > len - after {
        return None;
    }
    let endpos = after + (pos - start);
    let field = s.substring_char(after, endpos).to_owned();
    proof {
        assert(field@ =~= tail.subrange(
            (pos - start) as int + 1,
            (pos - start) as int + 1 + (pos - start) as int,
        ));
        assert(tail.subrange(
            (pos - start) as int + 1 + (pos - start) as int,
            tail.len() as int,
        ) =~= s@.skip(endpos as int));
    }
    Some((field, endpos))
}

impl WalletDescriptor {
    /// Encode this descriptor as text; the result is exactly
    /// `descriptor_enc` of the three fields.
    pub fn encode(&self) -> (r: String)
        ensures
            r@ == descriptor_enc(self.pool_name@, self.xtype@, self.name@),
    {
        let mut out = String::new();
        append_field(&mut out, self.pool_name.as_str());
        append_field(&mut out, self.xtype.as_str());
        append_field(&mut out, self.name.as_str());
        proof {
            assert(out@ =~= descriptor_enc(self.pool_name@, self.xtype@, self.name@));
        }
        out
    }

    /// Decode a descriptor from text.  Succeeds exactly on the well-formed
    /// encodings, with the decoded fields; anything else is `Corrupted`.
    pub fn decode(s: &str) -> (r: Result<WalletDescriptor, WalletError>)
        ensures
            match descriptor_dec(s@) {
                Option::Some(t) => {
                    &&& r matches Ok(d)
                    &&& d.pool_name@ == t.0
                    &&& d.xtype@ == t.1
                    &&& d.name@ == t.2
                },
                Option::None => (r matches Err(e) && e matches WalletError::Corrupted(_)),
            },
    {
        let len = s.unicode_len();
        proof {
            assert(s@.skip(0) =~= s@);
        }
        let p1 = match parse_field_at(s, 0) {
            Some(p) => p,
            None => {
                return Err(WalletError::Corrupted(String::from_str("malformed wallet descriptor")));
            },
        };
        let p2 = match parse_field_at(s, p1.1) {
            Some(p) => p,
            None => {
                return Err(WalletError::Corrupted(String::from_str("malformed wallet descriptor")));
            },
        };
        let p3 = match parse_field_at(s, p2.1) {
            Some(p) => p,
            None => {
                return Err(WalletError::Corrupted(String::from_str("malformed wallet descriptor")));
            },
        };
        if p3.1 != len {
            return Err(WalletError::Corrupted(String::from_str("malformed wallet descriptor")));
        }
        Ok(WalletDescriptor { pool_name: p1.0, xtype: p2.0, name: p3.0 })
    }
}

} // verus!

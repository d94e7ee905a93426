//! Naming for mDNS service discovery of GMN nodes: service types, instance
//! names `{prefix}-{NN}` numbered from 1, and reading the number back from a
//! resolved full name.

use std::collections::BTreeSet;

use vstd::prelude::*;

use crate::model::starts_with;
use crate::text::{
    chars_of, dec_padded, find_char, is_digit, lemma_dec_padded_reads_back, lemma_find_char_append,
    parse_u32_range, parse_u32_spec, push_all, push_dec_padded, string_of,
};

verus! {

/// The role a GMN node plays on the network.
#[derive(Clone, Copy, Debug, PartialEq, Eq, Structural)]
pub enum ServiceRole {
    Capture,
    Processing,
    Web,
}

/// mDNS service type of a role.
pub open spec fn role_service_type(r: ServiceRole) -> Seq<char> {
    match r {
        ServiceRole::Capture => "_gaia-gmn-cap._tcp.local."@,
        ServiceRole::Processing => "_gaia-gmn-proc._tcp.local."@,
        ServiceRole::Web => "_gaia-gmn-web._tcp.local."@,
    }
}

/// Instance-name prefix of a role.
pub open spec fn role_prefix(r: ServiceRole) -> Seq<char> {
    match r {
        ServiceRole::Capture => "gaia-gmn-capture"@,
        ServiceRole::Processing => "gaia-gmn-processing"@,
        ServiceRole::Web => "gaia-gmn-web"@,
    }
}

impl ServiceRole {
    /// mDNS service type (its service name is at most 15 characters, as
    /// RFC 6763 §7.2 asks).
    pub fn service_type(&self) -> (s: &'static str)
        ensures
            s@ == role_service_type(*self),
    {
        match self {
            ServiceRole::Capture => "_gaia-gmn-cap._tcp.local.",
            ServiceRole::Processing => "_gaia-gmn-proc._tcp.local.",
            ServiceRole::Web => "_gaia-gmn-web._tcp.local.",
        }
    }

    /// Prefix of this role's instance names.
    pub fn prefix(&self) -> (s: &'static str)
        ensures
            s@ == role_prefix(*self),
    {
        match self {
            ServiceRole::Capture => "gaia-gmn-capture",
            ServiceRole::Processing => "gaia-gmn-processing",
            ServiceRole::Web => "gaia-gmn-web",
        }
    }
}

/// The first dot-separated label of a name.
pub open spec fn first_label(s: Seq<char>) -> Seq<char> {
    match find_char(s, '.') {
        Some(i) => s.subrange(0, i),
        None => s,
    }
}

/// The instance number in a full service name: its first label must be
/// `{prefix}-{number}`.
pub open spec fn instance_number(fullname: Seq<char>, prefix: Seq<char>) -> Option<u32> {
    let inst = first_label(fullname);
    if starts_with(inst, prefix) && inst.len() > prefix.len() && inst[prefix.len() as int] == '-' {
        parse_u32_spec(inst.subrange(prefix.len() as int + 1, inst.len() as int))
    } else {
        None
    }
}

/// `{prefix}-{NN}`: the prefix, a dash and the number with at least two
/// digits.
pub open spec fn instance_name_text(prefix: Seq<char>, n: u32) -> Seq<char> {
    prefix + seq!['-'] + dec_padded(n as nat, 2)
}

/// Reads the instance number out of a resolved full name such as
/// `gaia-gmn-capture-02._gaia-gmn-cap._tcp.local.`.
pub fn parse_instance_number(fullname: &str, prefix: &str) -> (n: Option<u32>)
    ensures
        n == instance_number(fullname@, prefix@),
{
    let s = chars_of(fullname);
    let p = chars_of(prefix);
    let mut end: usize = 0;
    assert(s@.subrange(0, s@.len() as int) =~= s@);
    while end < s.len() && s[end] != '.'
        invariant
            s@ == fullname@,
            end <= s@.len(),
            find_char(s@, '.') == (match find_char(s@.subrange(end as int, s@.len() as int), '.') {
                Some(j) => Some(j + end),
                None => None::<int>,
            }),
        decreases s@.len() - end,
    {
        assert(s@.subrange(end as int, s@.len() as int).drop_first() =~= s@.subrange(
            end + 1,
            s@.len() as int,
        ));
        end = end + 1;
    }
    if end == s.len() {
        assert(s@.subrange(end as int, s@.len() as int) =~= Seq::<char>::empty());
        assert(s@.subrange(0, end as int) =~= s@);
    }
    let ghost inst = s@.subrange(0, end as int);
    assert(first_label(s@) == inst);
    let plen = p.len();
    if end < plen {
        return None;
    }
    let mut i: usize = 0;
    while i < plen
        invariant
            s@ == fullname@,
            p@ == prefix@,
            first_label(fullname@) == s@.subrange(0, end as int),
            plen == p@.len(),
            plen <= end <= s@.len(),
            i <= plen,
            forall|j: int| 0 <= j < i ==> s@[j] == p@[j],
        decreases plen - i,
    {
        if s[i] != p[i] {
            proof {
                assert(s@.subrange(0, end as int).subrange(0, plen as int)[i as int] != p@[i as int]);
            }
            return None;
        }
        i = i + 1;
    }
    assert(inst.subrange(0, plen as int) =~= p@);
    if end == plen || s[plen] != '-' {
        return None;
    }
    assert(inst.subrange(plen + 1, inst.len() as int) =~= s@.subrange(plen + 1, end as int));
    parse_u32_range(s.as_slice(), plen + 1, end)
}

/// The instance name `{prefix}-{NN}` of a role.
pub fn instance_name(role: ServiceRole, n: u32) -> (name: String)
    ensures
        name@ == instance_name_text(role_prefix(role), n),
{
    let mut out = chars_of(role.prefix());
    out.push('-');
    push_dec_padded(&mut out, n as u64, 2);
    string_of(out.as_slice())
}

/// Host name announced for an instance: `{instance}.local.`.
pub fn host_name(instance: &str) -> (host: String)
    ensures
        host@ == instance@ + ".local."@,
{
    let mut out = chars_of(instance);
    let ghost start = out@;
    push_all(&mut out, &['.', 'l', 'o', 'c', 'a', 'l', '.']);
    proof {
        reveal_strlit(".local.");
    }
    assert(out@ =~= instance@ + ".local."@);
    string_of(out.as_slice())
}

/// The smallest instance number, counting from 1, that no peer uses.
pub fn next_instance_number(existing: &BTreeSet<u32>) -> (n: u32)
    requires
        exists|k: u32| k >= 1 && !existing@.contains(k),
    ensures
        n >= 1,
        !existing@.contains(n),
        forall|k: u32| 1 <= k < n ==> existing@.contains(k),
{
    broadcast use vstd::laws_cmp::group_laws_cmp;
    broadcast use vstd::std_specs::btree::group_btree_axioms;

    let mut n: u32 = 1;
    while existing.contains(&n)
        invariant
            n >= 1,
            exists|k: u32| k >= 1 && !existing@.contains(k),
            forall|k: u32| 1 <= k < n ==> existing@.contains(k),
        decreases u32::MAX - n,
    {
        proof {
            let w = choose|k: u32| k >= 1 && !existing@.contains(k);
            assert(w > n);
        }
        n = n + 1;
    }
    n
}

/// `items` joined with `sep` between consecutive items.
pub open spec fn joined(items: Seq<Seq<char>>, sep: Seq<char>) -> Seq<char>
    decreases items.len(),
{
    if items.len() == 0 {
        Seq::empty()
    } else if items.len() == 1 {
        items[0]
    } else {
        joined(items.drop_last(), sep) + sep + items.last()
    }
}

/// Comma-separated list of interface addresses, as the service record
/// announces them.
pub fn join_addresses(addrs: &Vec<String>) -> (s: String)
    ensures
        s@ == joined(addrs@.map_values(|a: String| a@), seq![',']),
{
    let ghost items = addrs@.map_values(|a: String| a@);
    let mut out: Vec<char> = Vec::new();
    let mut i: usize = 0;
    while i < addrs.len()
        invariant
            i <= addrs@.len(),
            items == addrs@.map_values(|a: String| a@),
            out@ == joined(items.take(i as int), seq![',']),
        decreases addrs@.len() - i,
    {
        let ghost prev = out@;
        if i > 0 {
            out.push(',');
        }
        let a = chars_of(addrs[i].as_str());
        push_all(&mut out, a.as_slice());
        proof {
            assert(items.take(i + 1).drop_last() =~= items.take(i as int));
            if i == 0 {
                assert(out@ =~= items.take(1)[0]);
            } else {
                assert(out@ =~= prev + seq![','] + items.take(i + 1).last());
            }
        }
        i = i + 1;
    }
    assert(items.take(addrs@.len() as int) =~= items);
    string_of(out.as_slice())
}


/// Reading the number back from the full name of an announced instance,
/// `{prefix}-{NN}.{service type}`, gives the number it was announced with.
pub proof fn law_instance_number_roundtrip(role: ServiceRole, n: u32)
    ensures
        instance_number(
            instance_name_text(role_prefix(role), n) + seq!['.'] + role_service_type(role),
            role_prefix(role),
        ) == Some(n),
{
    let p = role_prefix(role);
    reveal_strlit("gaia-gmn-capture");
    reveal_strlit("gaia-gmn-processing");
    reveal_strlit("gaia-gmn-web");
    let d = dec_padded(n as nat, 2);
    lemma_dec_padded_reads_back(n as nat, 2);
    let inst = instance_name_text(p, n);
    let full = inst + seq!['.'] + role_service_type(role);
    assert forall|i: int| 0 <= i < inst.len() implies inst[i] != '.' by {
        if i > p.len() {
            assert(inst[i] == d[i - p.len() - 1]);
            assert(is_digit(d[i - p.len() - 1]));
        }
    }
    assert(full =~= inst + (seq!['.'] + role_service_type(role)));
    lemma_find_char_append(inst, seq!['.'] + role_service_type(role), '.');
    assert(first_label(full) =~= inst);
    assert(inst.subrange(0, p.len() as int) =~= p);
    assert(inst.subrange(p.len() as int + 1, inst.len() as int) =~= d);
    assert(d[0] != '+') by {
        assert(is_digit(d[0]));
    }
}

/// The service name of every role (between the leading underscore and the
/// first dot) fits the 15 characters RFC 6763 §7.2 allows.
pub proof fn law_service_name_fits(role: ServiceRole)
    ensures
        role_service_type(role)[0] == '_',
        find_char(role_service_type(role), '.') matches Some(i) && 1 <= i <= 16,
{
    reveal_strlit("_gaia-gmn-cap._tcp.local.");
    reveal_strlit("_gaia-gmn-proc._tcp.local.");
    reveal_strlit("_gaia-gmn-web._tcp.local.");
    let t = role_service_type(role);
    let k: int = match role {
        ServiceRole::Capture => 13,
        ServiceRole::Processing => 14,
        ServiceRole::Web => 13,
    };
    assert(t.subrange(k, t.len() as int)[0] == '.');
    assert(t =~= t.subrange(0, k) + t.subrange(k, t.len() as int));
    lemma_find_char_append(t.subrange(0, k), t.subrange(k, t.len() as int), '.');
}

} // verus!

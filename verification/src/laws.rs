//! The registry's laws: properties that tie the operations' contracts
//! together, proved once and for all inputs.

use vstd::prelude::*;
use crate::ipv4::{ipv4_text_spec, lemma_parse_then_format, parse_ipv4_spec, Ipv4Address};
use crate::registry::{authorized, claim_effect, record_effect};
use crate::text::{
    lemma_dots_before_monotonic, lemma_last_dot_before_properties, lemma_split_dots_len,
    lemma_split_dots_single, lemma_split_dots_unfold, last_dot_before, parent_of_spec,
    parent_start, split_dots, well_formed_fqdn,
};

verus! {

/// First claim wins: once a domain is claimed by `first`, it is bound to
/// `first`, and any later claim — by the same identity or another — leaves
/// the ownership table exactly as it was.
pub proof fn lemma_first_claim_wins(
    owners: Map<Seq<char>, Seq<char>>,
    domain: Seq<char>,
    first: Seq<char>,
    later: Seq<char>,
)
    requires
        !owners.contains_key(domain),
    ensures
        claim_effect(owners, domain, first).contains_key(domain),
        claim_effect(owners, domain, first)[domain] == first,
        claim_effect(claim_effect(owners, domain, first), domain, later) == claim_effect(
            owners,
            domain,
            first,
        ),
{
}

/// Before any claim the ownership table is empty, so a lookup of any domain
/// finds nothing: `get_owner` must return `None` on a fresh registry.
pub proof fn lemma_unclaimed_owner_not_found(domain: Seq<char>)
    ensures
        !Map::<Seq<char>, Seq<char>>::empty().contains_key(domain),
{
}

/// A record write takes effect exactly when the caller owns the parent
/// domain: then the record becomes readable with the written address, and
/// otherwise the record table — in particular any record under the same
/// name — is left exactly as it was.
pub proof fn lemma_record_write_gated(
    owners: Map<Seq<char>, Seq<char>>,
    records: Map<Seq<char>, Ipv4Address>,
    caller: Seq<char>,
    fqdn: Seq<char>,
    addr: Ipv4Address,
)
    ensures
        authorized(owners, caller, fqdn) ==> {
            &&& record_effect(owners, records, caller, fqdn, addr).contains_key(fqdn)
            &&& record_effect(owners, records, caller, fqdn, addr)[fqdn] == addr
        },
        !authorized(owners, caller, fqdn) ==> record_effect(owners, records, caller, fqdn, addr)
            == records,
{
}

/// Round trip: an authorized write of a well-formed address text stores an
/// address whose formatted text is exactly the text that was written, so a
/// following read returns it unchanged.
pub proof fn lemma_record_round_trip(
    owners: Map<Seq<char>, Seq<char>>,
    records: Map<Seq<char>, Ipv4Address>,
    caller: Seq<char>,
    fqdn: Seq<char>,
    ip: Seq<char>,
)
    requires
        authorized(owners, caller, fqdn),
        parse_ipv4_spec(ip) is Some,
    ensures
        ipv4_text_spec(record_effect(owners, records, caller, fqdn, parse_ipv4_spec(ip)->0)[fqdn])
            == ip,
{
    lemma_parse_then_format(ip);
}

/// Suffix extraction: the parent of a well-formed fully-qualified name is
/// exactly its last two labels, joined by a single dot.
pub proof fn lemma_parent_is_last_two_labels(s: Seq<char>)
    requires
        well_formed_fqdn(s),
    ensures
        split_dots(s).len() >= 2,
        parent_of_spec(s) == split_dots(s)[split_dots(s).len() - 2] + seq!['.']
            + split_dots(s)[split_dots(s).len() - 1],
{
    let n = s.len() as int;
    lemma_last_dot_before_properties(s, n);
    match last_dot_before(s, n) {
        None => {
            let w = choose|i: int| 0 <= i < s.len() && s[i] == '.';
            assert(s[w] != '.');
        },
        Some(ld) => {
            let pre = s.subrange(0, ld);
            let suf = s.subrange(ld + 1, n);
            lemma_split_dots_unfold(s, ld);
            lemma_last_dot_before_properties(s, ld);
            match last_dot_before(s, ld) {
                None => {
                    assert(forall|j: int| 0 <= j < pre.len() ==> pre[j] != '.');
                    lemma_split_dots_single(pre);
                    assert(split_dots(s) =~= seq![pre, suf]);
                    assert(parent_start(s) == 0);
                    assert(pre + seq!['.'] + suf =~= s.subrange(0, n));
                },
                Some(sld) => {
                    assert(pre[sld] == '.');
                    assert(forall|j: int| sld < j < pre.len() ==> pre[j] != '.');
                    lemma_split_dots_unfold(pre, sld);
                    lemma_split_dots_len(pre.subrange(0, sld));
                    lemma_dots_before_monotonic(pre.subrange(0, sld), 0, sld);
                    let parts = split_dots(s);
                    assert(parts[parts.len() - 2] == pre.subrange(sld + 1, ld));
                    assert(pre.subrange(sld + 1, ld) =~= s.subrange(sld + 1, ld));
                    assert(parent_start(s) == sld + 1);
                    assert(s.subrange(sld + 1, ld) + seq!['.'] + suf =~= s.subrange(sld + 1, n));
                },
            }
        },
    }
}

} // verus!

//! The domain registry: a write-once ownership table and an owner-gated
//! host-record table.

use vstd::pervasive::VecAdditionalExecFns;
use vstd::prelude::*;
use crate::ipv4::{format_ipv4, ipv4_text_spec, parse_ipv4, parse_ipv4_spec, Ipv4Address};
use crate::table::{
    lemma_table_map_absent, lemma_table_map_contains, lemma_table_map_index, lemma_table_map_push,
    lemma_table_map_update, table_find, table_map, unique_keys,
};
use crate::text::{parent_of, parent_of_spec, well_formed_fqdn};

verus! {

/// Malformed client input, rejected with no state change. Missing keys and
/// failed authorization are not errors: reads report them as `None`, writes
/// are benign no-ops.
#[derive(Clone, Copy, Debug, PartialEq, Eq, Structural)]
pub enum RegistryError {
    /// An empty domain name cannot be claimed.
    EmptyDomain,
    /// A fully-qualified name needs at least two dot-separated labels.
    MalformedFqdn,
    /// An address must be a dotted-quad IPv4 text.
    MalformedAddress,
}

/// What a claim does to the ownership table: the first writer wins, and a
/// claim on a taken domain changes nothing, whoever asks.
pub open spec fn claim_effect(
    owners: Map<Seq<char>, Seq<char>>,
    domain: Seq<char>,
    caller: Seq<char>,
) -> Map<Seq<char>, Seq<char>> {
    if owners.contains_key(domain) {
        owners
    } else {
        owners.insert(domain, caller)
    }
}

/// A caller may write a host record exactly when it owns the record's
/// governing parent domain.
pub open spec fn authorized(
    owners: Map<Seq<char>, Seq<char>>,
    caller: Seq<char>,
    fqdn: Seq<char>,
) -> bool {
    let parent = parent_of_spec(fqdn);
    owners.contains_key(parent) && owners[parent] == caller
}

/// What an authorized or unauthorized write does to the record table.
pub open spec fn record_effect(
    owners: Map<Seq<char>, Seq<char>>,
    records: Map<Seq<char>, Ipv4Address>,
    caller: Seq<char>,
    fqdn: Seq<char>,
    addr: Ipv4Address,
) -> Map<Seq<char>, Ipv4Address> {
    if authorized(owners, caller, fqdn) {
        records.insert(fqdn, addr)
    } else {
        records
    }
}

/// The registry's two tables. Domain names and fully-qualified names are
/// case-sensitive, otherwise arbitrary text keys.
pub struct DomainName {
    owners: Vec<(String, String)>,
    records: Vec<(String, Ipv4Address)>,
}

impl DomainName {
    /// The ownership table: domain name -> owning identity.
    pub closed spec fn owners_map(self) -> Map<Seq<char>, Seq<char>> {
        table_map(self.owners@)
    }

    /// The record table: fully-qualified name -> address.
    pub closed spec fn records_map(self) -> Map<Seq<char>, Ipv4Address> {
        table_map(self.records@)
    }

    #[verifier::type_invariant]
    spec fn wf(self) -> bool {
        unique_keys(self.owners@) && unique_keys(self.records@)
    }

    /// An empty registry: nothing owned, nothing resolved.
    pub fn new() -> (r: DomainName)
        ensures
            r.owners_map() == Map::<Seq<char>, Seq<char>>::empty(),
            r.records_map() == Map::<Seq<char>, Ipv4Address>::empty(),
    {
        DomainName { owners: Vec::new(), records: Vec::new() }
    }

    /// Claim `domain` for `caller`. The first claim binds the domain to the
    /// caller permanently; any later claim, by anyone, changes nothing and
    /// still reports success. Only an empty domain name is rejected.
    pub fn set_owner(&mut self, caller: String, domain: String) -> (r: Result<
        (),
        RegistryError,
    >)
        ensures
            final(self).records_map() == old(self).records_map(),
            match r {
                Ok(()) => domain@.len() > 0 && final(self).owners_map() == claim_effect(
                    old(self).owners_map(),
                    domain@,
                    caller@,
                ),
                Err(e) => e == RegistryError::EmptyDomain && domain@.len() == 0 && final(self).owners_map() == old(self).owners_map(),
            },
    {
        proof {
            use_type_invariant(&*self);
        }
        if domain.as_str().is_empty() {
            return Err(RegistryError::EmptyDomain);
        }
        match table_find(&self.owners, &domain) {
            Some(i) => {
                proof {
                    lemma_table_map_contains(self.owners@, i as int);
                }
                Ok(())
            },
            None => {
                proof {
                    lemma_table_map_absent(self.owners@, domain@);
                }
                let ghost old_owners = self.owners@;
                let mut owners: Vec<(String, String)> = Vec::new();
                core::mem::swap(&mut owners, &mut self.owners);
                owners.push((domain, caller));
                proof {
                    lemma_table_map_push(old_owners, owners@.last());
                    assert(owners@ =~= old_owners.push(owners@.last()));
                }
                core::mem::swap(&mut owners, &mut self.owners);
                Ok(())
            },
        }
    }

    /// Look up the owning identity of `domain`, or `None` when the domain
    /// has never been claimed.
    pub fn get_owner(&self, domain: String) -> (r: Option<String>)
        ensures
            match r {
                Some(id) => self.owners_map().contains_key(domain@) && id@
                    == self.owners_map()[domain@],
                None => !self.owners_map().contains_key(domain@),
            },
    {
        proof {
            use_type_invariant(&*self);
        }
        match table_find(&self.owners, &domain) {
            Some(i) => {
                proof {
                    lemma_table_map_index(self.owners@, i as int);
                }
                Some(self.owners[i].1.clone())
            },
            None => {
                proof {
                    lemma_table_map_absent(self.owners@, domain@);
                }
                None
            },
        }
    }

    /// Bind `fqdn` to `ip` on behalf of `caller`. The address text is parsed
    /// first and a malformed address is rejected; then the parent domain is
    /// derived by the two-label suffix rule, and a name with fewer than two
    /// labels is rejected. The record is created or overwritten exactly when
    /// `caller` owns the parent domain; otherwise the call is a benign no-op
    /// that still reports success.
    pub fn set_fqdn(&mut self, caller: String, fqdn: String, ip: String) -> (r: Result<
        (),
        RegistryError,
    >)
        ensures
            final(self).owners_map() == old(self).owners_map(),
            match r {
                Ok(()) => parse_ipv4_spec(ip@) is Some && well_formed_fqdn(fqdn@) && final(self).records_map() == record_effect(
                    old(self).owners_map(),
                    old(self).records_map(),
                    caller@,
                    fqdn@,
                    parse_ipv4_spec(ip@)->0,
                ),
                Err(RegistryError::MalformedAddress) => parse_ipv4_spec(ip@) is None && final(self).records_map() == old(self).records_map(),
                Err(RegistryError::MalformedFqdn) => parse_ipv4_spec(ip@) is Some
                    && !well_formed_fqdn(fqdn@) && final(self).records_map() == old(self).records_map(),
                Err(RegistryError::EmptyDomain) => false,
            },
    {
        proof {
            use_type_invariant(&*self);
        }
        let addr = match parse_ipv4(ip.as_str()) {
            Some(a) => a,
            None => return Err(RegistryError::MalformedAddress),
        };
        let parent = match parent_of(fqdn.as_str()) {
            Some(p) => p,
            None => return Err(RegistryError::MalformedFqdn),
        };
        match table_find(&self.owners, &parent) {
            None => {
                proof {
                    lemma_table_map_absent(self.owners@, parent@);
                }
                Ok(())
            },
            Some(oi) => {
                proof {
                    lemma_table_map_index(self.owners@, oi as int);
                }
                if self.owners[oi].1 == caller {
                    let ghost old_records = self.records@;
                    let mut records: Vec<(String, Ipv4Address)> = Vec::new();
                    core::mem::swap(&mut records, &mut self.records);
                    match table_find(&records, &fqdn) {
                        Some(ri) => {
                            let key = records[ri].0.clone();
                            proof {
                                lemma_table_map_update(old_records, ri as int, (key, addr));
                            }
                            records.set(ri, (key, addr));
                        },
                        None => {
                            proof {
                                lemma_table_map_absent(records@, fqdn@);
                            }
                            records.push((fqdn, addr));
                            proof {
                                lemma_table_map_push(old_records, records@.last());
                                assert(records@ =~= old_records.push(records@.last()));
                            }
                        },
                    }
                    core::mem::swap(&mut records, &mut self.records);
                    Ok(())
                } else {
                    Ok(())
                }
            },
        }
    }

    /// Look up the address bound to `fqdn`, formatted as dotted-quad text,
    /// or `None` when no record exists.
    pub fn get_fqdn(&self, fqdn: String) -> (r: Option<String>)
        ensures
            match r {
                Some(text) => self.records_map().contains_key(fqdn@) && text@
                    == ipv4_text_spec(self.records_map()[fqdn@]),
                None => !self.records_map().contains_key(fqdn@),
            },
    {
        proof {
            use_type_invariant(&*self);
        }
        match table_find(&self.records, &fqdn) {
            Some(i) => {
                proof {
                    lemma_table_map_index(self.records@, i as int);
                }
                Some(format_ipv4(&self.records[i].1))
            },
            None => {
                proof {
                    lemma_table_map_absent(self.records@, fqdn@);
                }
                None
            },
        }
    }
}

impl Default for DomainName {
    /// An empty registry, as `DomainName::new` builds it.
    fn default() -> (r: DomainName)
        ensures
            r.owners_map() == Map::<Seq<char>, Seq<char>>::empty(),
            r.records_map() == Map::<Seq<char>, Ipv4Address>::empty(),
    {
        DomainName::new()
    }
}

} // verus!

//! The access gate: the admin capability and the blacklist of addresses
//! barred from starting games.
//!
//! Blacklist mutation and admin replacement require the admin capability;
//! both blacklist mutations are idempotent (adding a present address and
//! removing an absent one are no-ops, not errors).

use vstd::prelude::*;

use crate::error::ContractError;
use crate::order::{cmp_bytes, lemma_addr_bytes_injective, Cmp};

verus! {

/// The addresses of a sequence, as a set of character sequences.
pub open spec fn addrs_set(s: Seq<String>) -> Set<Seq<char>> {
    s.map_values(|a: String| a@).to_set()
}

/// No two entries denote the same address.
pub open spec fn distinct_addrs(s: Seq<String>) -> bool {
    forall|i: int, j: int| 0 <= i < j < s.len() ==> (#[trigger] s[i])@ != (#[trigger] s[j])@
}

/// Appending a new address adds exactly it to the set.
proof fn lemma_addrs_set_push(s: Seq<String>, a: String)
    ensures
        addrs_set(s.push(a)) == addrs_set(s).insert(a@),
{
    let m = s.map_values(|x: String| x@);
    let mp = s.push(a).map_values(|x: String| x@);
    assert forall|x: Seq<char>| addrs_set(s.push(a)).contains(x) implies addrs_set(
        s,
    ).insert(a@).contains(x) by {
        let i = choose|i: int| 0 <= i < mp.len() && mp[i] == x;
        if i < s.len() {
            assert(m[i] == x);
            assert(m.contains(x));
        }
    }
    assert forall|x: Seq<char>| addrs_set(s).insert(a@).contains(x) implies addrs_set(
        s.push(a),
    ).contains(x) by {
        if addrs_set(s).contains(x) {
            let i = choose|i: int| 0 <= i < m.len() && m[i] == x;
            assert(mp[i] == x);
        } else {
            assert(mp[s.len() as int] == a@);
        }
        assert(mp.contains(x));
    }
    assert(addrs_set(s.push(a)) =~= addrs_set(s).insert(a@));
}

/// Removing the entry of an address removes exactly it from the set,
/// provided entries are distinct.
proof fn lemma_addrs_set_remove(s: Seq<String>, i: int)
    requires
        0 <= i < s.len(),
        distinct_addrs(s),
    ensures
        addrs_set(s.remove(i)) == addrs_set(s).remove(s[i]@),
{
    let m = s.map_values(|x: String| x@);
    let mr = s.remove(i).map_values(|x: String| x@);
    s.remove_ensures(i);
    assert forall|x: Seq<char>| addrs_set(s.remove(i)).contains(x) implies addrs_set(s).remove(
        s[i]@,
    ).contains(x) by {
        let j = choose|j: int| 0 <= j < mr.len() && mr[j] == x;
        let jj = if j < i {
            j
        } else {
            j + 1
        };
        assert(s.remove(i)[j] == s[jj]);
        assert(m[jj] == x);
        assert(m.contains(x));
        assert(x != s[i]@);
    }
    assert forall|x: Seq<char>| addrs_set(s).remove(s[i]@).contains(x) implies addrs_set(
        s.remove(i),
    ).contains(x) by {
        let j = choose|j: int| 0 <= j < m.len() && m[j] == x;
        if j < i {
            assert(s.remove(i)[j] == s[j]);
            assert(mr[j] == x);
        } else {
            assert(j != i);
            assert(s.remove(i)[j - 1] == s[j]);
            assert(mr[j - 1] == x);
        }
        assert(mr.contains(x));
    }
    assert(addrs_set(s.remove(i)) =~= addrs_set(s).remove(s[i]@));
}

/// The mathematical value of an [`AccessGate`]: the current admin, if any,
/// and the set of blacklisted addresses.
pub ghost struct GateV {
    pub admin: Option<Seq<char>>,
    pub blacklist: Set<Seq<char>>,
}

/// The admin capability holder and the blacklist.
pub struct AccessGate {
    admin: Option<String>,
    blacklist: Vec<String>,
}

impl View for AccessGate {
    type V = GateV;

    closed spec fn view(&self) -> GateV {
        GateV {
            admin: match self.admin {
                Some(a) => Some(a@),
                None => None,
            },
            blacklist: addrs_set(self.blacklist@),
        }
    }
}

impl AccessGate {
    /// Well-formedness: the blacklist holds each address at most once, so
    /// removing its entry removes the address.
    pub closed spec fn wf(&self) -> bool {
        distinct_addrs(self.blacklist@)
    }

    /// A gate with no admin and an empty blacklist.
    pub fn new() -> (r: AccessGate)
        ensures
            r.wf(),
            r@.admin is None,
            r@.blacklist == Set::<Seq<char>>::empty(),
    {
        let r = AccessGate { admin: None, blacklist: Vec::new() };
        proof {
            assert(r@.blacklist =~= Set::<Seq<char>>::empty());
        }
        r
    }

    /// Rebuilds a gate from recorded parts, e.g. when the exterior loads
    /// persisted state; duplicate blacklist entries collapse into one.
    pub fn restore(admin: Option<String>, entries: Vec<String>) -> (r: AccessGate)
        ensures
            r.wf(),
            r@.admin == (match admin {
                Some(a) => Some(a@),
                None => None::<Seq<char>>,
            }),
            r@.blacklist == addrs_set(entries@),
    {
        let mut r = AccessGate { admin, blacklist: Vec::new() };
        proof {
            assert(r@.blacklist =~= addrs_set(entries@.take(0)));
        }
        let n = entries.len();
        let mut i: usize = 0;
        while i < n
            invariant
                n == entries.len(),
                i <= n,
                r.wf(),
                r@.admin == (match admin {
                    Some(a) => Some(a@),
                    None => None::<Seq<char>>,
                }),
                r@.blacklist == addrs_set(entries@.take(i as int)),
            decreases n - i,
        {
            proof {
                assert(entries@.take(i as int + 1) =~= entries@.take(i as int).push(
                    entries@[i as int],
                ));
                lemma_addrs_set_push(entries@.take(i as int), entries@[i as int]);
            }
            if !r.is_blacklisted(entries[i].as_str()) {
                let ghost old_list = r.blacklist@;
                let entry = entries[i].clone();
                let ghost e0 = entry;
                r.blacklist.push(entry);
                proof {
                    lemma_addrs_set_push(old_list, e0);
                    assert forall|p: int, q: int|
                        0 <= p < q < r.blacklist@.len() implies (#[trigger] r.blacklist@[p])@ != (
                    #[trigger] r.blacklist@[q])@ by {
                        if q == old_list.len() {
                            assert(r.blacklist@[p] == old_list[p]);
                            let mm = old_list.map_values(|x: String| x@);
                            if old_list[p]@ == e0@ {
                                assert(mm[p] == e0@);
                                assert(mm.contains(e0@));
                            }
                        } else {
                            assert(r.blacklist@[p] == old_list[p]);
                            assert(r.blacklist@[q] == old_list[q]);
                        }
                    }
                }
            } else {
                proof {
                    assert(addrs_set(entries@.take(i as int)).insert(entries@[i as int]@)
                        =~= addrs_set(entries@.take(i as int)));
                }
            }
            i += 1;
        }
        proof {
            assert(entries@.take(n as int) =~= entries@);
        }
        r
    }

    /// Does the caller hold the admin capability?
    fn is_admin(&self, caller: &str) -> (r: bool)
        ensures
            r == (self@.admin == Some(caller@)),
    {
        match &self.admin {
            Some(a) => {
                let c = cmp_bytes(a.as_str().as_bytes(), caller.as_bytes());
                proof {
                    if c == Cmp::Equal {
                        lemma_addr_bytes_injective(a@, caller@);
                    }
                }
                c == Cmp::Equal
            },
            None => false,
        }
    }

    /// Does the address currently appear on the blacklist?
    pub fn is_blacklisted(&self, address: &str) -> (r: bool)
        ensures
            r == self@.blacklist.contains(address@),
    {
        let n = self.blacklist.len();
        let mut i: usize = 0;
        while i < n
            invariant
                n == self.blacklist.len(),
                i <= n,
                forall|j: int| 0 <= j < i ==> (#[trigger] self.blacklist@[j])@ != address@,
            decreases n - i,
        {
            let c = cmp_bytes(self.blacklist[i].as_str().as_bytes(), address.as_bytes());
            if c == Cmp::Equal {
                proof {
                    lemma_addr_bytes_injective(self.blacklist@[i as int]@, address@);
                    let ghost mm = self.blacklist@.map_values(|x: String| x@);
                    assert(mm[i as int] == address@);
                    assert(mm.contains(address@));
                }
                return true;
            }
            i += 1;
        }
        proof {
            let ghost mm = self.blacklist@.map_values(|x: String| x@);
            if self@.blacklist.contains(address@) {
                let j = choose|j: int| 0 <= j < mm.len() && mm[j] == address@;
                assert((self.blacklist@[j])@ == address@);
            }
        }
        false
    }

    /// Admin-gated, idempotent insert into the blacklist.
    pub fn add_to_blacklist(&mut self, caller: &str, address: &str) -> (r: Result<
        (),
        ContractError,
    >)
        requires
            old(self).wf(),
        ensures
            final(self).wf(),
            old(self)@.admin != Some(caller@) ==> r == Err::<(), ContractError>(
                ContractError::Unauthorized {  },
            ) && final(self)@ == old(self)@,
            old(self)@.admin == Some(caller@) ==> r is Ok && final(self)@.admin == old(self)@.admin
                && final(self)@.blacklist == old(self)@.blacklist.insert(address@),
    {
        if !self.is_admin(caller) {
            return Err(ContractError::Unauthorized {  });
        }
        if self.is_blacklisted(address) {
            proof {
                assert(old(self)@.blacklist.insert(address@) =~= old(self)@.blacklist);
            }
            return Ok(());
        }
        let owned = address.to_owned();
        let ghost a0 = owned;
        let ghost old_list = self.blacklist@;
        self.blacklist.push(owned);
        proof {
            lemma_addrs_set_push(old_list, a0);
            assert forall|p: int, q: int|
                0 <= p < q < self.blacklist@.len() implies (#[trigger] self.blacklist@[p])@ != (
            #[trigger] self.blacklist@[q])@ by {
                if q == old_list.len() {
                    assert(self.blacklist@[p] == old_list[p]);
                    let mm = old_list.map_values(|x: String| x@);
                    if old_list[p]@ == a0@ {
                        assert(mm[p] == a0@);
                        assert(mm.contains(a0@));
                    }
                } else {
                    assert(self.blacklist@[p] == old_list[p]);
                    assert(self.blacklist@[q] == old_list[q]);
                }
            }
        }
        Ok(())
    }

    /// Admin-gated, idempotent removal from the blacklist.
    pub fn remove_from_blacklist(&mut self, caller: &str, address: &str) -> (r: Result<
        (),
        ContractError,
    >)
        requires
            old(self).wf(),
        ensures
            final(self).wf(),
            old(self)@.admin != Some(caller@) ==> r == Err::<(), ContractError>(
                ContractError::Unauthorized {  },
            ) && final(self)@ == old(self)@,
            old(self)@.admin == Some(caller@) ==> r is Ok && final(self)@.admin == old(self)@.admin
                && final(self)@.blacklist == old(self)@.blacklist.remove(address@),
    {
        if !self.is_admin(caller) {
            return Err(ContractError::Unauthorized {  });
        }
        let n = self.blacklist.len();
        let mut i: usize = 0;
        while i < n
            invariant
                *self == *old(self),
                old(self).wf(),
                old(self)@.admin == Some(caller@),
                n == self.blacklist.len(),
                i <= n,
                forall|j: int| 0 <= j < i ==> (#[trigger] self.blacklist@[j])@ != address@,
            decreases n - i,
        {
            let c = cmp_bytes(self.blacklist[i].as_str().as_bytes(), address.as_bytes());
            if c == Cmp::Equal {
                proof {
                    lemma_addr_bytes_injective(self.blacklist@[i as int]@, address@);
                }
                let ghost old_list = self.blacklist@;
                self.blacklist.remove(i);
                proof {
                    lemma_addrs_set_remove(old_list, i as int);
                    old_list.remove_ensures(i as int);
                    assert forall|p: int, q: int|
                        0 <= p < q < self.blacklist@.len() implies (
                    #[trigger] self.blacklist@[p])@ != (#[trigger] self.blacklist@[q])@ by {
                        let pp = if p < i as int {
                            p
                        } else {
                            p + 1
                        };
                        let qq = if q < i as int {
                            q
                        } else {
                            q + 1
                        };
                        assert(self.blacklist@[p] == old_list[pp]);
                        assert(self.blacklist@[q] == old_list[qq]);
                    }
                }
                return Ok(());
            }
            i += 1;
        }
        proof {
            let ghost mm = self.blacklist@.map_values(|x: String| x@);
            if self@.blacklist.contains(address@) {
                let j = choose|j: int| 0 <= j < mm.len() && mm[j] == address@;
                assert((self.blacklist@[j])@ == address@);
            }
            assert(self@.blacklist.remove(address@) =~= self@.blacklist);
        }
        Ok(())
    }

    /// Replaces the admin; only the current admin may do so.
    pub fn update_admin(&mut self, caller: &str, new_admin: String) -> (r: Result<
        (),
        ContractError,
    >)
        requires
            old(self).wf(),
        ensures
            final(self).wf(),
            old(self)@.admin != Some(caller@) ==> r == Err::<(), ContractError>(
                ContractError::Unauthorized {  },
            ) && final(self)@ == old(self)@,
            old(self)@.admin == Some(caller@) ==> r is Ok && final(self)@.admin == Some(new_admin@)
                && final(self)@.blacklist == old(self)@.blacklist,
    {
        if !self.is_admin(caller) {
            return Err(ContractError::Unauthorized {  });
        }
        self.admin = Some(new_admin);
        Ok(())
    }

    /// Sets the admin without a capability check; for initial setup, where
    /// the instantiating caller acts as the super-authority.
    pub fn set_admin(&mut self, new_admin: String)
        requires
            old(self).wf(),
        ensures
            final(self).wf(),
            final(self)@.admin == Some(new_admin@),
            final(self)@.blacklist == old(self)@.blacklist,
    {
        self.admin = Some(new_admin);
    }

    /// The blacklist entries, one per blacklisted address; for the
    /// exterior to persist.
    pub fn entries(&self) -> (r: Vec<String>)
        ensures
            addrs_set(r@) == self@.blacklist,
    {
        let n = self.blacklist.len();
        let mut r: Vec<String> = Vec::new();
        proof {
            assert(addrs_set(r@) =~= addrs_set(self.blacklist@.take(0)));
        }
        let mut i: usize = 0;
        while i < n
            invariant
                n == self.blacklist.len(),
                i <= n,
                addrs_set(r@) == addrs_set(self.blacklist@.take(i as int)),
            decreases n - i,
        {
            let ghost before = r@;
            let entry = self.blacklist[i].clone();
            let ghost e0 = entry;
            r.push(entry);
            proof {
                lemma_addrs_set_push(before, e0);
                assert(self.blacklist@.take(i as int + 1) =~= self.blacklist@.take(
                    i as int,
                ).push(self.blacklist@[i as int]));
                lemma_addrs_set_push(self.blacklist@.take(i as int), self.blacklist@[i as int]);
            }
            i += 1;
        }
        proof {
            assert(self.blacklist@.take(n as int) =~= self.blacklist@);
        }
        r
    }

    /// The current admin address, if any.
    pub fn get_admin(&self) -> (r: Option<String>)
        ensures
            match r {
                Some(a) => self@.admin == Some(a@),
                None => self@.admin is None,
            },
    {
        match &self.admin {
            Some(a) => Some(a.clone()),
            None => None,
        }
    }
}

/// An address removed from the blacklist is no longer on it.
pub proof fn lemma_removed_not_blacklisted(blacklist: Set<Seq<char>>, address: Seq<char>)
    ensures
        !blacklist.remove(address).contains(address),
{
}

} // verus!

//! The router: the process-wide state shared by the two frontends. Three
//! tables live here — the allocation list of live subdomains, the map from
//! subdomain to agent inbox, and the map from ticket id to response inbox —
//! together with the allocator that keeps subdomains unique.
use vstd::prelude::*;

use crate::digits::{dec_digits, lemma_dec_digits_round_trip, render_u64};
use crate::text::str_eq;

verus! {

#[verifier::external_type_specification]
#[verifier::external_body]
#[verifier::reject_recursive_types(T)]
pub struct ExUnboundedSender<T>(tokio::sync::mpsc::UnboundedSender<T>);

#[verifier::external_type_specification]
#[verifier::external_body]
#[verifier::reject_recursive_types(T)]
pub struct ExSendError<T>(tokio::sync::mpsc::error::SendError<T>);

/// Relies on tokio's `UnboundedSender::send`: it enqueues without blocking
/// and fails exactly when the receiving half has closed or been dropped.
/// That depends on the channel's other side, so nothing is promised of the
/// outcome here; callers state what holds either way.
pub assume_specification<T>[ tokio::sync::mpsc::UnboundedSender::<T>::send ](
    s: &tokio::sync::mpsc::UnboundedSender<T>,
    message: T,
) -> Result<(), tokio::sync::mpsc::error::SendError<T>>;

/// One in-flight request-forwarding job: the ticket id under which the
/// waiter registered its response inbox, and the request's raw bytes.
pub struct TicketRequestHttp {
    pub name: String,
    pub data: Vec<u8>,
}

/// The views of the keys in an association list.
pub open spec fn key_views<T>(v: Seq<(String, T)>) -> Seq<Seq<char>> {
    v.map_values(|p: (String, T)| p.0@)
}

/// The views of the names in a list of strings.
pub open spec fn name_views(v: Seq<String>) -> Seq<Seq<char>> {
    v.map_values(|s: String| s@)
}

/// No name occurs twice.
pub open spec fn distinct_names(keys: Seq<Seq<char>>) -> bool {
    forall|i: int, j: int| 0 <= i < j < keys.len() ==> keys[i] != keys[j]
}

/// Index of the entry whose key reads `k`, if any.
fn assoc_index<T>(v: &Vec<(String, T)>, k: &str) -> (r: Option<usize>)
    ensures
        match r {
            Some(i) => i < v@.len() && v@[i as int].0@ == k@,
            None => !key_views(v@).contains(k@),
        },
{
    let mut i: usize = 0;
    while i < v.len()
        invariant
            0 <= i <= v@.len(),
            forall|j: int| 0 <= j < i ==> key_views(v@)[j] != k@,
        decreases v@.len() - i,
    {
        if str_eq(v[i].0.as_str(), k) {
            return Some(i);
        }
        proof {
            assert(key_views(v@)[i as int] == v@[i as int].0@);
        }
        i += 1;
    }
    proof {
        assert forall|idx: int| 0 <= idx < key_views(v@).len() implies key_views(v@)[idx] != k@ by {
            assert(idx < i);
        }
    }
    None
}

/// Index of the string reading `k` in a name list, if any.
fn name_index(v: &Vec<String>, k: &str) -> (r: Option<usize>)
    ensures
        match r {
            Some(i) => i < v@.len() && v@[i as int]@ == k@,
            None => !name_views(v@).contains(k@),
        },
{
    let mut i: usize = 0;
    while i < v.len()
        invariant
            0 <= i <= v@.len(),
            forall|j: int| 0 <= j < i ==> name_views(v@)[j] != k@,
        decreases v@.len() - i,
    {
        if str_eq(v[i].as_str(), k) {
            return Some(i);
        }
        proof {
            assert(name_views(v@)[i as int] == v@[i as int]@);
        }
        i += 1;
    }
    proof {
        assert forall|idx: int| 0 <= idx < name_views(v@).len() implies name_views(v@)[idx]
            != k@ by {
            assert(idx < i);
        }
    }
    None
}

/// The shared router state. The fields mirror the three tables of the
/// design: agent inboxes by subdomain, response inboxes by ticket id, and
/// the allocation list of live subdomains.
pub struct SharedState {
    tcp_connections: Vec<(String, tokio::sync::mpsc::UnboundedSender<TicketRequestHttp>)>,
    http_connections: Vec<(String, tokio::sync::mpsc::UnboundedSender<Vec<u8>>)>,
    subdomains: Vec<String>,
}

impl SharedState {
    /// The set of live (allocated) subdomains.
    pub closed spec fn alloc_set(&self) -> Set<Seq<char>> {
        name_views(self.subdomains@).to_set()
    }

    /// The set of subdomains with a registered agent inbox.
    pub closed spec fn agent_keys(&self) -> Set<Seq<char>> {
        key_views(self.tcp_connections@).to_set()
    }

    /// The set of ticket ids with a registered response inbox.
    pub closed spec fn pending_keys(&self) -> Set<Seq<char>> {
        key_views(self.http_connections@).to_set()
    }

    /// Well-formedness: names are stored once each, and an agent inbox is
    /// only ever registered under an allocated subdomain.
    pub closed spec fn wf(&self) -> bool {
        &&& distinct_names(name_views(self.subdomains@))
        &&& distinct_names(key_views(self.tcp_connections@))
        &&& distinct_names(key_views(self.http_connections@))
        &&& self.agent_keys().subset_of(self.alloc_set())
    }

    /// A quiescent router: no registration half-done, so the allocation set
    /// and the agent-inbox key set coincide.
    pub open spec fn quiescent(&self) -> bool {
        self.alloc_set() == self.agent_keys()
    }

    pub fn new() -> (s: Self)
        ensures
            s.wf(),
            s.quiescent(),
            s.alloc_set() == Set::<Seq<char>>::empty(),
            s.agent_keys() == Set::<Seq<char>>::empty(),
            s.pending_keys() == Set::<Seq<char>>::empty(),
    {
        let s = SharedState {
            tcp_connections: Vec::new(),
            http_connections: Vec::new(),
            subdomains: Vec::new(),
        };
        proof {
            assert(name_views(s.subdomains@) =~= Seq::<Seq<char>>::empty());
            assert(key_views(s.tcp_connections@) =~= Seq::<Seq<char>>::empty());
            assert(key_views(s.http_connections@) =~= Seq::<Seq<char>>::empty());
            assert(s.alloc_set() =~= Set::<Seq<char>>::empty());
            assert(s.agent_keys() =~= Set::<Seq<char>>::empty());
            assert(s.pending_keys() =~= Set::<Seq<char>>::empty());
        }
        s
    }

    /// Claims `subdomain` in the allocation list: reports `true` when it was
    /// already taken (and changes nothing), or takes it and reports `false`.
    pub fn check_duplicate_subdomain(&mut self, subdomain: String) -> (dup: bool)
        requires
            old(self).wf(),
        ensures
            final(self).wf(),
            dup == old(self).alloc_set().contains(subdomain@),
            final(self).agent_keys() == old(self).agent_keys(),
            final(self).pending_keys() == old(self).pending_keys(),
            dup ==> final(self).alloc_set() == old(self).alloc_set(),
            !dup ==> final(self).alloc_set() == old(self).alloc_set().insert(subdomain@),
    {
        let found = name_index(&self.subdomains, subdomain.as_str());
        match found {
            Some(i) => {
                proof {
                    assert(name_views(self.subdomains@)[i as int] == subdomain@);
                }
                true
            },
            None => {
                let ghost old_names = name_views(self.subdomains@);
                self.subdomains.push(subdomain);
                proof {
                    assert(name_views(self.subdomains@) =~= old_names.push(subdomain@));
                    broadcast use Seq::<_>::lemma_push_to_set_commute;

                    assert(self.alloc_set() == old_names.to_set().insert(subdomain@));
                    assert forall|i: int, j: int|
                        0 <= i < j < name_views(self.subdomains@).len() implies name_views(
                        self.subdomains@,
                    )[i] != name_views(self.subdomains@)[j] by {
                        if j == old_names.len() {
                            assert(name_views(self.subdomains@)[i] == old_names[i]);
                            assert(!old_names.contains(subdomain@));
                        }
                    }
                }
                false
            },
        }
    }

    /// Whether an agent inbox is registered under `client_id`.
    pub fn is_registered(&self, client_id: &str) -> (r: bool)
        ensures
            r == self.agent_keys().contains(client_id@),
    {
        match assoc_index(&self.tcp_connections, client_id) {
            Some(i) => {
                proof {
                    assert(key_views(self.tcp_connections@)[i as int] == client_id@);
                }
                true
            },
            None => false,
        }
    }

    /// Whether a subdomain is currently allocated.
    pub fn is_allocated(&self, subdomain: &str) -> (r: bool)
        ensures
            r == self.alloc_set().contains(subdomain@),
    {
        match name_index(&self.subdomains, subdomain) {
            Some(i) => {
                proof {
                    assert(name_views(self.subdomains@)[i as int] == subdomain@);
                }
                true
            },
            None => false,
        }
    }

    /// Registers an agent inbox under a subdomain that was just allocated
    /// and is not yet registered — the commit half of registration.
    pub fn register_tcp_client(
        &mut self,
        client_id: String,
        tx: tokio::sync::mpsc::UnboundedSender<TicketRequestHttp>,
    )
        requires
            old(self).wf(),
            old(self).alloc_set().contains(client_id@),
            !old(self).agent_keys().contains(client_id@),
        ensures
            final(self).wf(),
            final(self).agent_keys() == old(self).agent_keys().insert(client_id@),
            final(self).alloc_set() == old(self).alloc_set(),
            final(self).pending_keys() == old(self).pending_keys(),
    {
        let ghost old_keys = key_views(self.tcp_connections@);
        self.tcp_connections.push((client_id, tx));
        proof {
            assert(key_views(self.tcp_connections@) =~= old_keys.push(
                key_views(self.tcp_connections@).last(),
            ));
            broadcast use Seq::<_>::lemma_push_to_set_commute;

            assert forall|i: int, j: int|
                0 <= i < j < key_views(self.tcp_connections@).len() implies key_views(
                self.tcp_connections@,
            )[i] != key_views(self.tcp_connections@)[j] by {
                if j == old_keys.len() {
                    assert(key_views(self.tcp_connections@)[i] == old_keys[i]);
                    assert(!old_keys.contains(key_views(self.tcp_connections@)[j]));
                }
            }
        }
    }

    /// Drops the agent registration and releases the subdomain: both the
    /// inbox mapping and the allocation entry go.
    pub fn unregister_tcp_client(&mut self, client_id: &str)
        requires
            old(self).wf(),
        ensures
            final(self).wf(),
            final(self).agent_keys() == old(self).agent_keys().remove(client_id@),
            final(self).alloc_set() == old(self).alloc_set().remove(client_id@),
            final(self).pending_keys() == old(self).pending_keys(),
            old(self).quiescent() ==> final(self).quiescent(),
    {
        match assoc_index(&self.tcp_connections, client_id) {
            Some(i) => {
                let ghost old_keys = key_views(self.tcp_connections@);
                let _ = self.tcp_connections.remove(i);
                proof {
                    assert(key_views(self.tcp_connections@) =~= old_keys.remove(i as int));
                    lemma_distinct_remove(old_keys, i as int);
                    assert(key_views(self.tcp_connections@).to_set() =~= old_keys.to_set().remove(
                        client_id@,
                    ));
                }
            },
            None => {
                proof {
                    assert(self.agent_keys() =~= self.agent_keys().remove(client_id@));
                }
            },
        }
        match name_index(&self.subdomains, client_id) {
            Some(i) => {
                let ghost old_names = name_views(self.subdomains@);
                proof {
                    assert(old_names[i as int] == client_id@);
                }
                let _ = self.subdomains.remove(i);
                proof {
                    assert(name_views(self.subdomains@) =~= old_names.remove(i as int));
                    lemma_distinct_remove(old_names, i as int);
                    assert(name_views(self.subdomains@).to_set() =~= old_names.to_set().remove(
                        client_id@,
                    ));
                }
            },
            None => {
                proof {
                    assert(self.alloc_set() =~= self.alloc_set().remove(client_id@));
                }
            },
        }
    }

    /// Registers a response inbox under a ticket id. Re-using a live ticket
    /// id replaces the old inbox; its waiter then observes a closed inbox.
    pub fn register_http_client(
        &mut self,
        client_id: String,
        tx: tokio::sync::mpsc::UnboundedSender<Vec<u8>>,
    )
        requires
            old(self).wf(),
        ensures
            final(self).wf(),
            final(self).pending_keys() == old(self).pending_keys().insert(client_id@),
            final(self).agent_keys() == old(self).agent_keys(),
            final(self).alloc_set() == old(self).alloc_set(),
    {
        match assoc_index(&self.http_connections, client_id.as_str()) {
            Some(i) => {
                let ghost old_keys = key_views(self.http_connections@);
                let _ = self.http_connections.remove(i);
                proof {
                    assert(key_views(self.http_connections@) =~= old_keys.remove(i as int));
                    lemma_distinct_remove(old_keys, i as int);
                }
                let ghost mid_keys = key_views(self.http_connections@);
                self.http_connections.push((client_id, tx));
                proof {
                    assert(key_views(self.http_connections@) =~= mid_keys.push(client_id@));
                    broadcast use Seq::<_>::lemma_push_to_set_commute;

                    assert(self.pending_keys() =~= old_keys.to_set().insert(client_id@));
                    assert forall|a: int, b: int|
                        0 <= a < b < key_views(self.http_connections@).len() implies key_views(
                        self.http_connections@,
                    )[a] != key_views(self.http_connections@)[b] by {
                        if b == mid_keys.len() {
                            assert(key_views(self.http_connections@)[a] == mid_keys[a]);
                            assert(!mid_keys.contains(client_id@));
                        }
                    }
                }
            },
            None => {
                let ghost old_keys = key_views(self.http_connections@);
                self.http_connections.push((client_id, tx));
                proof {
                    assert(key_views(self.http_connections@) =~= old_keys.push(client_id@));
                    broadcast use Seq::<_>::lemma_push_to_set_commute;

                    assert forall|a: int, b: int|
                        0 <= a < b < key_views(self.http_connections@).len() implies key_views(
                        self.http_connections@,
                    )[a] != key_views(self.http_connections@)[b] by {
                        if b == old_keys.len() {
                            assert(key_views(self.http_connections@)[a] == old_keys[a]);
                            assert(!old_keys.contains(client_id@));
                        }
                    }
                }
            },
        }
    }

    /// Hands a ticket to the agent registered under `client_id`. False when
    /// no such agent is registered, and when its inbox is gone; delivery to
    /// a live inbox is up to the channel.
    pub fn send_to_tcp_client(&self, client_id: &str, ticket: TicketRequestHttp) -> (r: bool)
        ensures
            r ==> self.agent_keys().contains(client_id@),
            !self.agent_keys().contains(client_id@) ==> r == false,
    {
        match assoc_index(&self.tcp_connections, client_id) {
            Some(i) => {
                proof {
                    assert(key_views(self.tcp_connections@)[i as int] == client_id@);
                }
                self.tcp_connections[i].1.send(ticket).is_ok()
            },
            None => false,
        }
    }

    /// Resolves the ticket `client_id` with `message`: delivers to its
    /// response inbox and retires the entry, so a ticket is delivered to at
    /// most once. False when no such ticket is pending.
    pub fn send_to_http_client(&mut self, client_id: &str, message: Vec<u8>) -> (r: bool)
        requires
            old(self).wf(),
        ensures
            final(self).wf(),
            final(self).pending_keys() == old(self).pending_keys().remove(client_id@),
            final(self).agent_keys() == old(self).agent_keys(),
            final(self).alloc_set() == old(self).alloc_set(),
            r ==> old(self).pending_keys().contains(client_id@),
            !old(self).pending_keys().contains(client_id@) ==> r == false,
    {
        match assoc_index(&self.http_connections, client_id) {
            Some(i) => {
                proof {
                    assert(key_views(self.http_connections@)[i as int] == client_id@);
                }
                let ghost old_keys = key_views(self.http_connections@);
                let entry = self.http_connections.remove(i);
                proof {
                    assert(key_views(self.http_connections@) =~= old_keys.remove(i as int));
                    lemma_distinct_remove(old_keys, i as int);
                    assert(key_views(self.http_connections@).to_set() =~= old_keys.to_set().remove(
                        client_id@,
                    ));
                }
                entry.1.send(message).is_ok()
            },
            None => {
                proof {
                    assert(self.pending_keys() =~= self.pending_keys().remove(client_id@));
                }
                false
            },
        }
    }
}

/// Removing an entry from a duplicate-free name list removes exactly that
/// name from the name set, and keeps the list duplicate-free.
proof fn lemma_distinct_remove(keys: Seq<Seq<char>>, i: int)
    requires
        distinct_names(keys),
        0 <= i < keys.len(),
    ensures
        distinct_names(keys.remove(i)),
        keys.remove(i).to_set() =~= keys.to_set().remove(keys[i]),
{
    let rest = keys.remove(i);
    assert forall|a: int, b: int| 0 <= a < b < rest.len() implies rest[a] != rest[b] by {
        let a0 = if a < i {
            a
        } else {
            a + 1
        };
        let b0 = if b < i {
            b
        } else {
            b + 1
        };
        assert(rest[a] == keys[a0]);
        assert(rest[b] == keys[b0]);
    }
    assert forall|x: Seq<char>| rest.to_set().contains(x) implies keys.to_set().remove(
        keys[i],
    ).contains(x) by {
        let j = choose|j: int| 0 <= j < rest.len() && rest[j] == x;
        let j0 = if j < i {
            j
        } else {
            j + 1
        };
        assert(keys[j0] == x);
        assert(j0 != i);
    }
    assert forall|x: Seq<char>|
        keys.to_set().remove(keys[i]).contains(x) implies rest.to_set().contains(x) by {
        let j0 = choose|j0: int| 0 <= j0 < keys.len() && keys[j0] == x;
        assert(j0 != i);
        let j = if j0 < i {
            j0
        } else {
            j0 - 1
        };
        assert(rest[j] == keys[j0]);
        assert(rest.contains(x));
    }
}

/// The `N`-suffixed fallback name tried when `base` is taken.
pub open spec fn suffixed(base: Seq<char>, n: int) -> Seq<char> {
    base + "-"@ + dec_digits(n)
}

/// How the allocator chooses against a prior allocation set: the requested
/// base itself when free; otherwise `base-N` with the smallest `N >= 1`
/// whose name is free.
pub open spec fn allocation_chosen(prior: Set<Seq<char>>, base: Seq<char>, r: Seq<char>) -> bool {
    if !prior.contains(base) {
        r == base
    } else {
        exists|n: int|
            {
                &&& 1 <= n
                &&& r == #[trigger] suffixed(base, n)
                &&& !prior.contains(suffixed(base, n))
                &&& forall|m: int| 1 <= m < n ==> prior.contains(#[trigger] suffixed(base, m))
            }
    }
}

/// Suffixed names are distinct for distinct suffixes: the digits parse back
/// to the number they render.
proof fn lemma_suffixed_injective(base: Seq<char>, n: int, m: int)
    requires
        0 <= n,
        0 <= m,
        n != m,
    ensures
        suffixed(base, n) != suffixed(base, m),
{
    if suffixed(base, n) == suffixed(base, m) {
        let a = dec_digits(n);
        let b = dec_digits(m);
        let sa = suffixed(base, n);
        let sb = suffixed(base, m);
        assert(sa.len() == base.len() + "-"@.len() + a.len());
        assert(sb.len() == base.len() + "-"@.len() + b.len());
        let cut = base.len() + "-"@.len();
        assert(a =~= sa.subrange(cut as int, sa.len() as int));
        assert(b =~= sb.subrange(cut as int, sb.len() as int));
        lemma_dec_digits_round_trip(n);
        lemma_dec_digits_round_trip(m);
        assert(false);
    }
}

/// A suffixed name is longer than its base, so it never equals the base.
proof fn lemma_suffixed_not_base(base: Seq<char>, n: int)
    ensures
        suffixed(base, n) != base,
{
    assert(dec_digits(n).len() >= 1) by {
        if n >= 10 {
            assert(dec_digits(n).len() == dec_digits(n / 10).len() + 1);
        }
    }
    assert(suffixed(base, n).len() > base.len());
}

impl SharedState {
    /// Allocates a subdomain from a requested name: the name itself when
    /// free, else `name-1`, `name-2`, ... at the smallest free suffix. The
    /// chosen name joins the allocation set; nothing else changes.
    pub fn allocate_subdomain(&mut self, requested: &str) -> (r: String)
        requires
            old(self).wf(),
        ensures
            final(self).wf(),
            !old(self).alloc_set().contains(r@),
            allocation_chosen(old(self).alloc_set(), requested@, r@),
            final(self).alloc_set() == old(self).alloc_set().insert(r@),
            final(self).agent_keys() == old(self).agent_keys(),
            final(self).pending_keys() == old(self).pending_keys(),
    {
        let dup0 = self.check_duplicate_subdomain(String::from_str(requested));
        if !dup0 {
            return String::from_str(requested);
        }
        // Ghost bookkeeping for termination: `taken` collects the names
        // known to sit in the allocation set — the base and every suffix
        // tried so far. They are pairwise distinct, so the counter can
        // never pass the set's size.
        let ghost base = requested@;
        let ghost prior = self.alloc_set();
        let ghost mut taken: Set<Seq<char>> = Set::empty().insert(base);
        proof {
            broadcast use vstd::set_lib::group_set_lib_default;
            broadcast use vstd::set::group_set_axioms;

            assert(taken.finite());
            assert(taken.len() == 1);
            assert(taken.subset_of(prior));
            vstd::set_lib::lemma_len_subset(taken, prior);
        }
        let mut cnt: u64 = 1;
        loop
            invariant
                self.wf(),
                1 <= cnt,
                self.alloc_set() == prior,
                prior == old(self).alloc_set(),
                self.agent_keys() == old(self).agent_keys(),
                self.pending_keys() == old(self).pending_keys(),
                base == requested@,
                prior.contains(base),
                prior.finite(),
                taken.finite(),
                taken.len() == cnt,
                taken.subset_of(prior),
                taken.contains(base),
                forall|m: int| 1 <= m < cnt ==> taken.contains(#[trigger] suffixed(base, m)),
                forall|x: Seq<char>|
                    #[trigger] taken.contains(x) ==> x == base || exists|m: int|
                        1 <= m < cnt && x == suffixed(base, m),
                cnt <= prior.len(),
            decreases prior.len() - cnt,
        {
            let mut cand = String::from_str(requested);
            cand.append("-");
            let digits = render_u64(cnt);
            cand.append(digits.as_str());
            proof {
                assert(cand@ == suffixed(base, cnt as int));
            }
            let dup = self.check_duplicate_subdomain(cand.clone());
            if !dup {
                proof {
                    let n = cnt as int;
                    assert(1 <= n && cand@ == suffixed(base, n) && !prior.contains(
                        suffixed(base, n),
                    ) && forall|m: int| 1 <= m < n ==> prior.contains(#[trigger] suffixed(base, m)));
                }
                return cand;
            }
            proof {
                broadcast use vstd::set::group_set_axioms;

                let c = suffixed(base, cnt as int);
                lemma_suffixed_not_base(base, cnt as int);
                assert forall|x: Seq<char>| taken.contains(x) implies x != c by {
                    if x != base {
                        let m = choose|m: int| 1 <= m < cnt && x == suffixed(base, m);
                        lemma_suffixed_injective(base, m, cnt as int);
                    }
                }
                assert(!taken.contains(c));
                taken = taken.insert(c);
                assert(taken.len() == cnt + 1);
                assert(taken.subset_of(prior));
                vstd::set_lib::lemma_len_subset(taken, prior);
                assert(cnt + 1 <= prior.len());
            }
            // The counter stays below the table's size, so it cannot wrap.
            let cap = self.subdomains.len();
            proof {
                name_views(self.subdomains@).lemma_cardinality_of_set();
                assert(name_views(self.subdomains@).len() == cap as nat);
                assert(prior.len() <= cap as nat);
            }
            cnt += 1;
        }
    }

    /// Allocates a random subdomain of the form "app-NNNN", retrying a few
    /// times on collision; if random names keep colliding, the last one is
    /// suffixed deterministically, which always finds a free name.
    pub fn allocate_random_subdomain(&mut self) -> (r: String)
        requires
            old(self).wf(),
        ensures
            final(self).wf(),
            !old(self).alloc_set().contains(r@),
            final(self).alloc_set() == old(self).alloc_set().insert(r@),
            final(self).agent_keys() == old(self).agent_keys(),
            final(self).pending_keys() == old(self).pending_keys(),
            random_subdomain_shape(r@),
    {
        let mut tries: usize = 0;
        while tries < 32
            invariant
                self.wf(),
                self.alloc_set() == old(self).alloc_set(),
                self.agent_keys() == old(self).agent_keys(),
                self.pending_keys() == old(self).pending_keys(),
            decreases 32 - tries,
        {
            let cand = crate::ids::generate_name();
            let dup = self.check_duplicate_subdomain(cand.clone());
            if !dup {
                return cand;
            }
            tries += 1;
        }
        let cand = crate::ids::generate_name();
        let r = self.allocate_subdomain(cand.as_str());
        proof {
            if r@ != cand@ {
                let n = choose|n: int|
                    {
                        &&& 1 <= n
                        &&& r@ == #[trigger] suffixed(cand@, n)
                        &&& !self.alloc_set().contains(suffixed(cand@, n))
                    };
                assert(random_subdomain_shape(r@));
            }
        }
        r
    }
}

/// What `allocate_random_subdomain` may return: a random "app-NNNN" name,
/// or, after persistent collisions, such a name with a numeric dash suffix.
pub open spec fn random_subdomain_shape(r: Seq<char>) -> bool {
    crate::ids::is_generated_name(r) || exists|base: Seq<char>, m: int|
        1 <= m && crate::ids::is_generated_name(base) && r == #[trigger] suffixed(base, m)
}

/// An allocated subdomain is never a reissue: whatever name the allocator
/// returns lies outside the prior allocation set, and every registered
/// holder's name lies inside it, so the new name collides with no holder.
pub proof fn lemma_no_reissue(s: SharedState, r: Seq<char>, held: Seq<char>)
    requires
        s.wf(),
        s.agent_keys().contains(held),
        !s.alloc_set().contains(r),
    ensures
        r != held,
{
    assert(s.alloc_set().contains(held));
}

/// Two-step registration returns the router to agreement: after allocating
/// a fresh name and then registering an agent inbox under it, the
/// allocation set and the agent-inbox key set coincide again. Together with
/// `new` starting quiescent and `unregister_tcp_client` preserving
/// quiescence, the two key sets agree at every quiescent point.
pub proof fn lemma_register_restores_quiescence(
    pre: SharedState,
    mid: SharedState,
    post: SharedState,
    name: Seq<char>,
)
    requires
        pre.quiescent(),
        !pre.alloc_set().contains(name),
        mid.alloc_set() == pre.alloc_set().insert(name),
        mid.agent_keys() == pre.agent_keys(),
        mid.pending_keys() == pre.pending_keys(),
        post.agent_keys() == mid.agent_keys().insert(name),
        post.alloc_set() == mid.alloc_set(),
    ensures
        post.quiescent(),
{
    assert(post.alloc_set() =~= post.agent_keys());
}

/// A ticket is delivered to at most once: resolving it retires its entry,
/// so after one resolution the id is no longer pending and a second
/// resolution of the same id delivers nothing.
pub proof fn lemma_resolve_at_most_once(
    pre: SharedState,
    mid: SharedState,
    post: SharedState,
    id: Seq<char>,
)
    requires
        mid.pending_keys() == pre.pending_keys().remove(id),
        post.pending_keys() == mid.pending_keys().remove(id),
    ensures
        !mid.pending_keys().contains(id),
        post.pending_keys() == mid.pending_keys(),
{
    assert(post.pending_keys() =~= mid.pending_keys());
}

/// Allocating the same requested name twice, with no release in between,
/// yields two distinct names; the second is a dash-suffixed form of the
/// base with the smallest free `N` (that minimality is what
/// `allocation_chosen` states of it).
pub proof fn lemma_allocation_idempotent(
    prior: Set<Seq<char>>,
    base: Seq<char>,
    r1: Seq<char>,
    r2: Seq<char>,
)
    requires
        allocation_chosen(prior, base, r1),
        !prior.contains(r1),
        allocation_chosen(prior.insert(r1), base, r2),
        !prior.insert(r1).contains(r2),
    ensures
        r1 != r2,
        exists|n: int| 1 <= n && r2 == #[trigger] suffixed(base, n),
{
    assert(prior.insert(r1).contains(r1));
    assert(prior.insert(r1).contains(base));
}

} // verus!

//! Subscription bookkeeping.
//!
//! [`message_broker`] holds the registry the broker dispatches against:
//! ids are global there and each entry carries the subscriber's sink. The
//! types in this module are a smaller, self-contained cache of plain
//! (subject, token) pairs, with tokens scoped per subject.

use vstd::prelude::*;
use vstd::string::StringExecFns;

pub mod message_broker;

verus! {

/// A routing key.
#[derive(Debug, Clone, PartialEq, Eq, Hash)]
pub struct Subject(pub String);

/// A client-chosen subscription token, here scoped to one subject.
#[derive(Debug, Clone, PartialEq, Eq, Hash)]
pub struct SubscriptionId(pub String);

struct CacheEntry {
    subject: String,
    subs: Vec<String>,
}

/// A map from subject name to the set of subscription tokens registered
/// under it.
pub struct MessageBrokerStore {
    entries: Vec<CacheEntry>,
}

/// The token set of `subject` in `v`; empty when the subject is absent.
pub open spec fn sids_of(v: Map<Seq<char>, Set<Seq<char>>>, subject: Seq<char>) -> Set<Seq<char>> {
    if v.contains_key(subject) {
        v[subject]
    } else {
        Set::<Seq<char>>::empty()
    }
}

spec fn sid_set(s: Seq<String>) -> Set<Seq<char>>
    decreases s.len(),
{
    if s.len() == 0 {
        Set::<Seq<char>>::empty()
    } else {
        sid_set(s.drop_last()).insert(s.last()@)
    }
}

spec fn has_token(s: Seq<String>, x: Seq<char>) -> bool {
    exists|i: int| 0 <= i < s.len() && (#[trigger] s[i])@ == x
}

spec fn distinct_tokens(s: Seq<String>) -> bool {
    forall|i: int, j: int| 0 <= i < j < s.len() ==> (#[trigger] s[i])@ != (#[trigger] s[j])@
}

proof fn lemma_sid_set_contains(s: Seq<String>)
    ensures
        forall|x: Seq<char>| #[trigger] sid_set(s).contains(x) <==> has_token(s, x),
    decreases s.len(),
{
    if s.len() > 0 {
        lemma_sid_set_contains(s.drop_last());
        assert forall|x: Seq<char>| #[trigger] sid_set(s).contains(x) implies has_token(s, x) by {
            if s.last()@ == x {
                assert(s[s.len() - 1]@ == x);
            } else {
                assert(sid_set(s.drop_last()).contains(x));
                assert(has_token(s.drop_last(), x));
                let i = choose|i: int|
                    0 <= i < s.drop_last().len() && (#[trigger] s.drop_last()[i])@ == x;
                assert(s[i]@ == x);
            }
        }
        assert forall|x: Seq<char>| has_token(s, x) implies #[trigger] sid_set(s).contains(x) by {
            let i = choose|i: int| 0 <= i < s.len() && (#[trigger] s[i])@ == x;
            if i < s.len() - 1 {
                assert(s.drop_last()[i]@ == x);
                assert(has_token(s.drop_last(), x));
                assert(sid_set(s.drop_last()).contains(x));
            } else {
                assert(s.last() == s[i]);
            }
        }
    }
}

proof fn lemma_sid_set_remove(s: Seq<String>, j: int)
    requires
        distinct_tokens(s),
        0 <= j < s.len(),
    ensures
        sid_set(s.remove(j)) == sid_set(s).remove(s[j]@),
    decreases s.len(),
{
    let t = s.remove(j);
    if j == s.len() - 1 {
        assert(t =~= s.drop_last());
        lemma_sid_set_contains(s.drop_last());
        assert forall|i: int| 0 <= i < s.drop_last().len() implies (#[trigger] s.drop_last()[i])@
            != s[j]@ by {
            assert(s[i] == s.drop_last()[i]);
        }
        assert(!has_token(s.drop_last(), s[j]@));
        assert(!sid_set(s.drop_last()).contains(s[j]@));
        assert(sid_set(t) =~= sid_set(s).remove(s[j]@));
    } else {
        assert(t.drop_last() =~= s.drop_last().remove(j));
        assert(s.drop_last()[j] == s[j]);
        lemma_sid_set_remove(s.drop_last(), j);
        assert(t.last() == s.last());
        assert(s[j]@ != s.last()@);
        assert(sid_set(t) =~= sid_set(s).remove(s[j]@));
    }
}

spec fn cache_view(s: Seq<CacheEntry>) -> Map<Seq<char>, Set<Seq<char>>>
    decreases s.len(),
{
    if s.len() == 0 {
        Map::<Seq<char>, Set<Seq<char>>>::empty()
    } else {
        cache_view(s.drop_last()).insert(s.last().subject@, sid_set(s.last().subs@))
    }
}

spec fn cache_has_subject(s: Seq<CacheEntry>, subject: Seq<char>) -> bool {
    exists|i: int| 0 <= i < s.len() && (#[trigger] s[i]).subject@ == subject
}

spec fn cache_distinct_subjects(s: Seq<CacheEntry>) -> bool {
    forall|i: int, j: int|
        0 <= i < j < s.len() ==> (#[trigger] s[i]).subject@ != (#[trigger] s[j]).subject@
}

proof fn lemma_cache_view_contains(s: Seq<CacheEntry>)
    ensures
        forall|sub: Seq<char>| #[trigger]
            cache_view(s).contains_key(sub) <==> cache_has_subject(s, sub),
    decreases s.len(),
{
    if s.len() > 0 {
        lemma_cache_view_contains(s.drop_last());
        assert forall|sub: Seq<char>| #[trigger]
            cache_view(s).contains_key(sub) implies cache_has_subject(s, sub) by {
            if s.last().subject@ == sub {
                assert(s[s.len() - 1].subject@ == sub);
            } else {
                assert(cache_view(s.drop_last()).contains_key(sub));
                assert(cache_has_subject(s.drop_last(), sub));
                let i = choose|i: int|
                    0 <= i < s.drop_last().len() && (#[trigger] s.drop_last()[i]).subject@ == sub;
                assert(s[i].subject@ == sub);
            }
        }
        assert forall|sub: Seq<char>| cache_has_subject(s, sub) implies #[trigger] cache_view(
            s,
        ).contains_key(sub) by {
            let i = choose|i: int| 0 <= i < s.len() && (#[trigger] s[i]).subject@ == sub;
            if i < s.len() - 1 {
                assert(s.drop_last()[i].subject@ == sub);
                assert(cache_has_subject(s.drop_last(), sub));
                assert(cache_view(s.drop_last()).contains_key(sub));
            } else {
                assert(s.last() == s[i]);
            }
        }
    }
}

proof fn lemma_cache_view_index(s: Seq<CacheEntry>, i: int)
    requires
        cache_distinct_subjects(s),
        0 <= i < s.len(),
    ensures
        cache_view(s).contains_key(s[i].subject@),
        cache_view(s)[s[i].subject@] == sid_set(s[i].subs@),
    decreases s.len(),
{
    if i == s.len() - 1 {
    } else {
        assert(s.drop_last()[i] == s[i]);
        lemma_cache_view_index(s.drop_last(), i);
        assert(s[i].subject@ != s.last().subject@);
    }
}

proof fn lemma_cache_view_update(s: Seq<CacheEntry>, i: int, e: CacheEntry)
    requires
        cache_distinct_subjects(s),
        0 <= i < s.len(),
        e.subject@ == s[i].subject@,
    ensures
        cache_view(s.update(i, e)) == cache_view(s).insert(e.subject@, sid_set(e.subs@)),
    decreases s.len(),
{
    let t = s.update(i, e);
    if i == s.len() - 1 {
        assert(t.drop_last() =~= s.drop_last());
        assert(cache_view(t) =~= cache_view(s).insert(e.subject@, sid_set(e.subs@)));
    } else {
        assert(t.drop_last() =~= s.drop_last().update(i, e));
        assert(s.drop_last()[i] == s[i]);
        lemma_cache_view_update(s.drop_last(), i, e);
        assert(t.last() == s.last());
        assert(s[i].subject@ != s.last().subject@);
        assert(cache_view(t) =~= cache_view(s).insert(e.subject@, sid_set(e.subs@)));
    }
}

impl View for MessageBrokerStore {
    type V = Map<Seq<char>, Set<Seq<char>>>;

    closed spec fn view(&self) -> Map<Seq<char>, Set<Seq<char>>> {
        cache_view(self.entries@)
    }
}

fn cache_find_subject(entries: &Vec<CacheEntry>, subject: &String) -> (r: Option<usize>)
    ensures
        r matches Some(i) ==> i < entries@.len() && entries@[i as int].subject@ == subject@,
        r is None ==> !cache_has_subject(entries@, subject@),
{
    let n = entries.len();
    let mut i: usize = 0;
    while i < n
        invariant
            n == entries@.len(),
            i <= n,
            forall|k: int| 0 <= k < i ==> (#[trigger] entries@[k]).subject@ != subject@,
        decreases n - i,
    {
        if entries[i].subject == *subject {
            return Some(i);
        }
        i = i + 1;
    }
    None
}

fn cache_find_token(subs: &Vec<String>, sub: &String) -> (r: Option<usize>)
    ensures
        r matches Some(j) ==> j < subs@.len() && subs@[j as int]@ == sub@,
        r is None ==> !has_token(subs@, sub@),
{
    let n = subs.len();
    let mut j: usize = 0;
    while j < n
        invariant
            n == subs@.len(),
            j <= n,
            forall|k: int| 0 <= k < j ==> (#[trigger] subs@[k])@ != sub@,
        decreases n - j,
    {
        if subs[j] == *sub {
            return Some(j);
        }
        j = j + 1;
    }
    None
}

impl MessageBrokerStore {
    /// Internal consistency: at most one entry per subject, at most one
    /// slot per token within a subject.
    pub closed spec fn wf(&self) -> bool {
        &&& cache_distinct_subjects(self.entries@)
        &&& forall|i: int|
            0 <= i < self.entries@.len() ==> distinct_tokens((#[trigger] self.entries@[i]).subs@)
    }

    /// An empty cache.
    pub fn new() -> (r: Self)
        ensures
            r.wf(),
            r@ == Map::<Seq<char>, Set<Seq<char>>>::empty(),
    {
        MessageBrokerStore { entries: Vec::new() }
    }

    /// Registers `sub` under `subject`. Returns whether the pair was newly
    /// inserted: registering it again changes nothing and is no error.
    pub fn add_subscription(&mut self, subject: Subject, sub: SubscriptionId) -> (r: Result<
        bool,
        &'static str,
    >)
        requires
            old(self).wf(),
        ensures
            final(self).wf(),
            final(self)@ == old(self)@.insert(
                subject.0@,
                sids_of(old(self)@, subject.0@).insert(sub.0@),
            ),
            r matches Ok(inserted) && inserted == !sids_of(old(self)@, subject.0@).contains(
                sub.0@,
            ),
    {
        let ghost oe = self.entries@;
        match cache_find_subject(&self.entries, &subject.0) {
            Some(i) => {
                proof {
                    lemma_cache_view_index(oe, i as int);
                    lemma_sid_set_contains(oe[i as int].subs@);
                }
                match cache_find_token(&self.entries[i].subs, &sub.0) {
                    Some(_) => {
                        proof {
                            assert(sids_of(old(self)@, subject.0@).contains(sub.0@));
                            assert(sid_set(oe[i as int].subs@).insert(sub.0@) =~= sid_set(
                                oe[i as int].subs@,
                            ));
                            assert(old(self)@.insert(subject.0@, sid_set(oe[i as int].subs@))
                                =~= old(self)@);
                        }
                        Ok(false)
                    },
                    None => {
                        self.entries[i].subs.push(sub.0);
                        proof {
                            let e = self.entries@[i as int];
                            assert(e.subject@ == oe[i as int].subject@);
                            assert(e.subs@ == oe[i as int].subs@.push(sub.0));
                            assert(e.subs@.drop_last() =~= oe[i as int].subs@);
                            assert(sid_set(e.subs@) == sid_set(oe[i as int].subs@).insert(sub.0@));
                            assert(self.entries@ =~= oe.update(i as int, e));
                            lemma_cache_view_update(oe, i as int, e);
                            assert forall|k: int|
                                0 <= k < self.entries@.len() implies distinct_tokens(
                                (#[trigger] self.entries@[k]).subs@,
                            ) by {
                                if k != i as int {
                                    assert(self.entries@[k] == oe[k]);
                                } else {
                                    let t = e.subs@;
                                    assert forall|x: int, y: int|
                                        0 <= x < y < t.len() implies (#[trigger] t[x])@
                                        != (#[trigger] t[y])@ by {
                                        if y < t.len() - 1 {
                                            assert(t[x] == oe[i as int].subs@[x]);
                                            assert(t[y] == oe[i as int].subs@[y]);
                                        } else {
                                            assert(t[x] == oe[i as int].subs@[x]);
                                        }
                                    }
                                }
                            }
                        }
                        Ok(true)
                    },
                }
            },
            None => {
                proof {
                    lemma_cache_view_contains(oe);
                    assert(!old(self)@.contains_key(subject.0@));
                }
                let mut subs: Vec<String> = Vec::new();
                subs.push(sub.0);
                let ghost sv = subs@;
                let e = CacheEntry { subject: subject.0, subs };
                proof {
                    assert(sv.len() == 1);
                    assert(sv.drop_last() =~= Seq::<String>::empty());
                    assert(sid_set(sv.drop_last()) =~= Set::<Seq<char>>::empty());
                    assert(sid_set(sv) =~= Set::<Seq<char>>::empty().insert(sv.last()@));
                }
                self.entries.push(e);
                proof {
                    assert(self.entries@.drop_last() =~= oe);
                    assert forall|x: int, y: int|
                        0 <= x < y < self.entries@.len() implies (#[trigger] self.entries@[x]).subject@
                        != (#[trigger] self.entries@[y]).subject@ by {
                        if y < self.entries@.len() - 1 {
                            assert(self.entries@[x] == oe[x]);
                            assert(self.entries@[y] == oe[y]);
                        } else {
                            assert(self.entries@[x] == oe[x]);
                        }
                    }
                    assert forall|k: int|
                        0 <= k < self.entries@.len() implies distinct_tokens(
                        (#[trigger] self.entries@[k]).subs@,
                    ) by {
                        if k < self.entries@.len() - 1 {
                            assert(self.entries@[k] == oe[k]);
                        }
                    }
                }
                Ok(true)
            },
        }
    }

    /// Removes `sub` from `subject` alone. Fails when the subject has no
    /// entry; otherwise returns whether the token was present.
    pub fn remove_subscription(&mut self, subject: &Subject, sub: &SubscriptionId) -> (r: Result<
        bool,
        &'static str,
    >)
        requires
            old(self).wf(),
        ensures
            final(self).wf(),
            old(self)@.contains_key(subject.0@) ==> {
                &&& final(self)@ == old(self)@.insert(
                    subject.0@,
                    old(self)@[subject.0@].remove(sub.0@),
                )
                &&& r == Ok::<bool, &'static str>(old(self)@[subject.0@].contains(sub.0@))
            },
            !old(self)@.contains_key(subject.0@) ==> final(self)@ == old(self)@ && (r matches Err(m)
                && m@ == "Could not get subject"@),
    {
        let ghost oe = self.entries@;
        match cache_find_subject(&self.entries, &subject.0) {
            Some(i) => {
                proof {
                    lemma_cache_view_index(oe, i as int);
                    lemma_sid_set_contains(oe[i as int].subs@);
                }
                match cache_find_token(&self.entries[i].subs, &sub.0) {
                    Some(j) => {
                        let _ = self.entries[i].subs.remove(j);
                        proof {
                            let e = self.entries@[i as int];
                            assert(e.subject@ == oe[i as int].subject@);
                            assert(e.subs@ == oe[i as int].subs@.remove(j as int));
                            lemma_sid_set_remove(oe[i as int].subs@, j as int);
                            assert(oe[i as int].subs@[j as int]@ == sub.0@);
                            assert(sid_set(oe[i as int].subs@).remove(oe[i as int].subs@[j as int]@)
                                =~= sid_set(oe[i as int].subs@).remove(sub.0@));
                            assert(self.entries@ =~= oe.update(i as int, e));
                            lemma_cache_view_update(oe, i as int, e);
                            let before = oe[i as int].subs@;
                            let after = e.subs@;
                            assert forall|x: int, y: int|
                                0 <= x < y < after.len() implies (#[trigger] after[x])@
                                != (#[trigger] after[y])@ by {
                                let x0 = if x < j as int {
                                    x
                                } else {
                                    x + 1
                                };
                                let y0 = if y < j as int {
                                    y
                                } else {
                                    y + 1
                                };
                                assert(after[x] == before[x0]);
                                assert(after[y] == before[y0]);
                            }
                            assert forall|k: int|
                                0 <= k < self.entries@.len() implies distinct_tokens(
                                (#[trigger] self.entries@[k]).subs@,
                            ) by {
                                if k != i as int {
                                    assert(self.entries@[k] == oe[k]);
                                }
                            }
                        }
                        Ok(true)
                    },
                    None => {
                        proof {
                            assert(!sid_set(oe[i as int].subs@).contains(sub.0@));
                            assert(sid_set(oe[i as int].subs@).remove(sub.0@) =~= sid_set(
                                oe[i as int].subs@,
                            ));
                            assert(old(self)@.insert(subject.0@, sid_set(oe[i as int].subs@))
                                =~= old(self)@);
                        }
                        Ok(false)
                    },
                }
            },
            None => {
                proof {
                    lemma_cache_view_contains(oe);
                    assert(!old(self)@.contains_key(subject.0@));
                }
                Err("Could not get subject")
            },
        }
    }

    /// The tokens currently registered under `subject`, without
    /// duplicates; empty when the subject is absent. Never fails.
    pub fn list_subscriptions(&self, subject: &Subject) -> (r: Result<
        Vec<SubscriptionId>,
        &'static str,
    >)
        requires
            self.wf(),
        ensures
            r is Ok,
            forall|k: int|
                0 <= k < r->Ok_0@.len() ==> sids_of(self@, subject.0@).contains(
                    (#[trigger] r->Ok_0@[k]).0@,
                ),
            forall|k: int, m: int|
                0 <= k < m < r->Ok_0@.len() ==> (#[trigger] r->Ok_0@[k]).0@
                    != (#[trigger] r->Ok_0@[m]).0@,
            forall|x: Seq<char>| #[trigger]
                sids_of(self@, subject.0@).contains(x) ==> exists|k: int|
                    0 <= k < r->Ok_0@.len() && (#[trigger] r->Ok_0@[k]).0@ == x,
    {
        let mut out: Vec<SubscriptionId> = Vec::new();
        match cache_find_subject(&self.entries, &subject.0) {
            Some(i) => {
                proof {
                    lemma_cache_view_index(self.entries@, i as int);
                    lemma_sid_set_contains(self.entries@[i as int].subs@);
                }
                let ghost subs = self.entries@[i as int].subs@;
                let n = self.entries[i].subs.len();
                let mut j: usize = 0;
                while j < n
                    invariant
                        distinct_tokens(subs),
                        i < self.entries@.len(),
                        subs == self.entries@[i as int].subs@,
                        n == subs.len(),
                        j <= n,
                        out@.len() == j,
                        forall|k: int| 0 <= k < j ==> (#[trigger] out@[k]).0@ == subs[k]@,
                    decreases n - j,
                {
                    let token = self.entries[i].subs[j].clone();
                    proof {
                        assert(token@ == subs[j as int]@);
                    }
                    out.push(SubscriptionId(token));
                    j = j + 1;
                }
                proof {
                    lemma_cache_view_index(self.entries@, i as int);
                    lemma_sid_set_contains(subs);
                    assert(sids_of(self@, subject.0@) == sid_set(subs));
                    assert forall|k: int|
                        0 <= k < out@.len() implies sids_of(self@, subject.0@).contains(
                        (#[trigger] out@[k]).0@,
                    ) by {
                        assert(subs[k]@ == out@[k].0@);
                        assert(has_token(subs, out@[k].0@));
                        assert(sid_set(subs).contains(out@[k].0@));
                    }
                }
                let res: Result<Vec<SubscriptionId>, &'static str> = Ok(out);
                proof {
                    assert forall|x: Seq<char>| #[trigger]
                        sids_of(self@, subject.0@).contains(x) implies exists|k: int|
                        0 <= k < res->Ok_0@.len() && (#[trigger] res->Ok_0@[k]).0@ == x by {
                        assert(sid_set(subs).contains(x));
                        assert(has_token(subs, x));
                        let k = choose|k: int| 0 <= k < subs.len() && (#[trigger] subs[k])@ == x;
                        assert(res->Ok_0@[k].0@ == x);
                    }
                }
                res
            },
            None => {
                proof {
                    lemma_cache_view_contains(self.entries@);
                    assert(!self@.contains_key(subject.0@));
                    assert(sids_of(self@, subject.0@) =~= Set::<Seq<char>>::empty());
                }
                Ok(out)
            },
        }
    }
}

} // verus!

//! The subscription registry: subject -> subscriber id -> write
//! capability, with publish fan-out.
//!
//! The registry is modelled as a map from subject name to a map from
//! subscription id to sink handle. A sink handle stands for the capability
//! to push bytes to one client's connection; the transport behind a handle
//! lives outside this crate, so `publish_to_sub` returns the formatted
//! deliveries instead of writing them.

use vstd::prelude::*;
use vstd::string::StrSliceExecFns;
use vstd::string::StringExecFns;

use crate::nats::commands::byte_len;
use crate::nats::parse_utils::{dec_chars, u64_to_string};

verus! {

/// A routing key. Matching is exact; case is preserved.
#[derive(Debug, Clone, PartialEq, Eq, Hash)]
pub struct Subject(pub String);

/// A client-chosen subscription id. In this registry ids are global: an
/// `UNSUB` removes the id from every subject (a known simplification).
#[derive(Debug, Clone, PartialEq, Eq, Hash)]
pub struct SubscriptionId(pub u16);

/// A capability to push bytes to one client's connection, independent of
/// that client's own read loop. The transport behind it lives outside the
/// registry.
#[derive(Debug, Clone, Copy, PartialEq, Eq, Hash)]
pub struct SinkHandle(pub u64);

/// One formatted message for one subscriber, ready to be written to the
/// subscriber's sink.
#[derive(Debug, Clone)]
pub struct Delivery {
    pub sid: SubscriptionId,
    pub sink: SinkHandle,
    pub message: String,
}

struct Entry {
    subject: String,
    subs: Vec<(u16, u64)>,
}

/// The registry. Its abstract value is a map from subject name to a map
/// from subscription id to sink handle.
pub struct MessageBrokerStore {
    entries: Vec<Entry>,
}

/// The subscriber map of `subject` in `v`; empty when the subject is
/// absent (absent and present-with-empty-set are observably the same).
pub open spec fn subs_of(v: Map<Seq<char>, Map<u16, u64>>, subject: Seq<char>) -> Map<u16, u64> {
    if v.contains_key(subject) {
        v[subject]
    } else {
        Map::<u16, u64>::empty()
    }
}

/// The registry after registering `sid` under `subject` with sink `sink`.
pub open spec fn add_view(
    v: Map<Seq<char>, Map<u16, u64>>,
    subject: Seq<char>,
    sid: u16,
    sink: u64,
) -> Map<Seq<char>, Map<u16, u64>> {
    v.insert(subject, subs_of(v, subject).insert(sid, sink))
}

/// The registry after removing `sid` from every subject.
pub open spec fn remove_view(v: Map<Seq<char>, Map<u16, u64>>, sid: u16) -> Map<
    Seq<char>,
    Map<u16, u64>,
> {
    Map::new(|s: Seq<char>| v.contains_key(s), |s: Seq<char>| v[s].remove(sid))
}

/// Whether `sid` is registered under any subject of `v`.
pub open spec fn has_subscriber(v: Map<Seq<char>, Map<u16, u64>>, sid: u16) -> bool {
    exists|s: Seq<char>| #[trigger] v.contains_key(s) && v[s].contains_key(sid)
}

spec fn subs_view(s: Seq<(u16, u64)>) -> Map<u16, u64>
    decreases s.len(),
{
    if s.len() == 0 {
        Map::<u16, u64>::empty()
    } else {
        subs_view(s.drop_last()).insert(s.last().0, s.last().1)
    }
}

spec fn has_sid(s: Seq<(u16, u64)>, sid: u16) -> bool {
    exists|i: int| 0 <= i < s.len() && (#[trigger] s[i]).0 == sid
}

spec fn distinct_sids(s: Seq<(u16, u64)>) -> bool {
    forall|i: int, j: int| 0 <= i < j < s.len() ==> (#[trigger] s[i]).0 != (#[trigger] s[j]).0
}

proof fn lemma_subs_view_contains(s: Seq<(u16, u64)>)
    ensures
        forall|k: u16| #[trigger] subs_view(s).contains_key(k) <==> has_sid(s, k),
    decreases s.len(),
{
    if s.len() > 0 {
        lemma_subs_view_contains(s.drop_last());
        assert forall|k: u16| #[trigger] subs_view(s).contains_key(k) implies has_sid(s, k) by {
            if s.last().0 == k {
                assert(s[s.len() - 1].0 == k);
            } else {
                assert(subs_view(s.drop_last()).contains_key(k));
                let i = choose|i: int| 0 <= i < s.drop_last().len() && (#[trigger] s.drop_last()[i]).0 == k;
                assert(s[i].0 == k);
            }
        }
        assert forall|k: u16| has_sid(s, k) implies #[trigger] subs_view(s).contains_key(k) by {
            let i = choose|i: int| 0 <= i < s.len() && (#[trigger] s[i]).0 == k;
            if i < s.len() - 1 {
                assert(s.drop_last()[i].0 == k);
                assert(has_sid(s.drop_last(), k));
                assert(subs_view(s.drop_last()).contains_key(k));
            } else {
                assert(s.last() == s[i]);
            }
        }
    }
}

proof fn lemma_subs_view_index(s: Seq<(u16, u64)>, i: int)
    requires
        distinct_sids(s),
        0 <= i < s.len(),
    ensures
        subs_view(s).contains_key(s[i].0),
        subs_view(s)[s[i].0] == s[i].1,
    decreases s.len(),
{
    if i == s.len() - 1 {
    } else {
        assert(s.drop_last()[i] == s[i]);
        lemma_subs_view_index(s.drop_last(), i);
        assert(s[i].0 != s.last().0);
    }
}

proof fn lemma_subs_view_update(s: Seq<(u16, u64)>, j: int, sink: u64)
    requires
        distinct_sids(s),
        0 <= j < s.len(),
    ensures
        subs_view(s.update(j, (s[j].0, sink))) == subs_view(s).insert(s[j].0, sink),
    decreases s.len(),
{
    let t = s.update(j, (s[j].0, sink));
    if j == s.len() - 1 {
        assert(t.drop_last() =~= s.drop_last());
        assert(subs_view(t) =~= subs_view(s).insert(s[j].0, sink));
    } else {
        assert(t.drop_last() =~= s.drop_last().update(j, (s[j].0, sink)));
        assert(s.drop_last()[j] == s[j]);
        lemma_subs_view_update(s.drop_last(), j, sink);
        assert(t.last() == s.last());
        // the updated id differs from the last entry's id, so the two
        // inserts commute
        assert(s[j].0 != s.last().0);
        assert(subs_view(t) =~= subs_view(s).insert(s[j].0, sink));
    }
}

proof fn lemma_subs_view_remove(s: Seq<(u16, u64)>, j: int)
    requires
        distinct_sids(s),
        0 <= j < s.len(),
    ensures
        subs_view(s.remove(j)) == subs_view(s).remove(s[j].0),
    decreases s.len(),
{
    let t = s.remove(j);
    if j == s.len() - 1 {
        assert(t =~= s.drop_last());
        lemma_subs_view_contains(s.drop_last());
        assert forall|i: int| 0 <= i < s.drop_last().len() implies (#[trigger] s.drop_last()[i]).0
            != s[j].0 by {
            assert(s[i] == s.drop_last()[i]);
        }
        assert(!has_sid(s.drop_last(), s[j].0));
        assert(!subs_view(s.drop_last()).contains_key(s[j].0));
        assert(subs_view(t) =~= subs_view(s).remove(s[j].0));
    } else {
        assert(t.drop_last() =~= s.drop_last().remove(j));
        assert(s.drop_last()[j] == s[j]);
        lemma_subs_view_remove(s.drop_last(), j);
        assert(t.last() == s.last());
        assert(s[j].0 != s.last().0);
        assert(subs_view(t) =~= subs_view(s).remove(s[j].0));
    }
}

spec fn entries_view(s: Seq<Entry>) -> Map<Seq<char>, Map<u16, u64>>
    decreases s.len(),
{
    if s.len() == 0 {
        Map::<Seq<char>, Map<u16, u64>>::empty()
    } else {
        entries_view(s.drop_last()).insert(s.last().subject@, subs_view(s.last().subs@))
    }
}

spec fn has_subject(s: Seq<Entry>, subject: Seq<char>) -> bool {
    exists|i: int| 0 <= i < s.len() && (#[trigger] s[i]).subject@ == subject
}

spec fn distinct_subjects(s: Seq<Entry>) -> bool {
    forall|i: int, j: int|
        0 <= i < j < s.len() ==> (#[trigger] s[i]).subject@ != (#[trigger] s[j]).subject@
}

proof fn lemma_entries_view_contains(s: Seq<Entry>)
    ensures
        forall|sub: Seq<char>| #[trigger] entries_view(s).contains_key(sub) <==> has_subject(s, sub),
    decreases s.len(),
{
    if s.len() > 0 {
        lemma_entries_view_contains(s.drop_last());
        assert forall|sub: Seq<char>| #[trigger]
            entries_view(s).contains_key(sub) implies has_subject(s, sub) by {
            if s.last().subject@ == sub {
                assert(s[s.len() - 1].subject@ == sub);
            } else {
                assert(entries_view(s.drop_last()).contains_key(sub));
                assert(has_subject(s.drop_last(), sub));
                let i = choose|i: int|
                    0 <= i < s.drop_last().len() && (#[trigger] s.drop_last()[i]).subject@ == sub;
                assert(s[i].subject@ == sub);
            }
        }
        assert forall|sub: Seq<char>| has_subject(s, sub) implies #[trigger] entries_view(
            s,
        ).contains_key(sub) by {
            let i = choose|i: int| 0 <= i < s.len() && (#[trigger] s[i]).subject@ == sub;
            if i < s.len() - 1 {
                assert(s.drop_last()[i].subject@ == sub);
                assert(has_subject(s.drop_last(), sub));
                assert(entries_view(s.drop_last()).contains_key(sub));
            } else {
                assert(s.last() == s[i]);
            }
        }
    }
}

proof fn lemma_entries_view_index(s: Seq<Entry>, i: int)
    requires
        distinct_subjects(s),
        0 <= i < s.len(),
    ensures
        entries_view(s).contains_key(s[i].subject@),
        entries_view(s)[s[i].subject@] == subs_view(s[i].subs@),
    decreases s.len(),
{
    if i == s.len() - 1 {
    } else {
        assert(s.drop_last()[i] == s[i]);
        lemma_entries_view_index(s.drop_last(), i);
        assert(s[i].subject@ != s.last().subject@);
    }
}

proof fn lemma_entries_view_update(s: Seq<Entry>, i: int, e: Entry)
    requires
        distinct_subjects(s),
        0 <= i < s.len(),
        e.subject@ == s[i].subject@,
    ensures
        entries_view(s.update(i, e)) == entries_view(s).insert(e.subject@, subs_view(e.subs@)),
    decreases s.len(),
{
    let t = s.update(i, e);
    if i == s.len() - 1 {
        assert(t.drop_last() =~= s.drop_last());
        assert(entries_view(t) =~= entries_view(s).insert(e.subject@, subs_view(e.subs@)));
    } else {
        assert(t.drop_last() =~= s.drop_last().update(i, e));
        assert(s.drop_last()[i] == s[i]);
        lemma_entries_view_update(s.drop_last(), i, e);
        assert(t.last() == s.last());
        // the updated subject differs from the last entry's subject, so the
        // two inserts commute
        assert(s[i].subject@ != s.last().subject@);
        assert(entries_view(t) =~= entries_view(s).insert(e.subject@, subs_view(e.subs@)));
    }
}

/// Removing an id distributes over extending the registry by one subject.
proof fn lemma_remove_view_insert(
    v: Map<Seq<char>, Map<u16, u64>>,
    subject: Seq<char>,
    m: Map<u16, u64>,
    sid: u16,
)
    ensures
        remove_view(v.insert(subject, m), sid) == remove_view(v, sid).insert(
            subject,
            m.remove(sid),
        ),
{
    assert(remove_view(v.insert(subject, m), sid) =~= remove_view(v, sid).insert(
        subject,
        m.remove(sid),
    ));
}

/// A registry whose entries all lost `sid`, subject by subject, is the
/// registry with `sid` removed.
proof fn lemma_entries_view_removed(a: Seq<Entry>, b: Seq<Entry>, sid: u16)
    requires
        a.len() == b.len(),
        forall|k: int| 0 <= k < a.len() ==> (#[trigger] b[k]).subject@ == (#[trigger] a[k]).subject@,
        forall|k: int|
            0 <= k < a.len() ==> subs_view((#[trigger] b[k]).subs@) == subs_view(
                (#[trigger] a[k]).subs@,
            ).remove(sid),
    ensures
        entries_view(b) == remove_view(entries_view(a), sid),
    decreases a.len(),
{
    if a.len() == 0 {
        assert(entries_view(b) =~= remove_view(entries_view(a), sid));
    } else {
        assert forall|k: int| 0 <= k < a.drop_last().len() implies (#[trigger] b.drop_last()[k]).subject@
            == (#[trigger] a.drop_last()[k]).subject@ && subs_view(b.drop_last()[k].subs@)
            == subs_view(a.drop_last()[k].subs@).remove(sid) by {
            assert(a.drop_last()[k] == a[k]);
            assert(b.drop_last()[k] == b[k]);
        }
        lemma_entries_view_removed(a.drop_last(), b.drop_last(), sid);
        lemma_remove_view_insert(
            entries_view(a.drop_last()),
            a.last().subject@,
            subs_view(a.last().subs@),
            sid,
        );
        assert(b.last() == b[a.len() - 1]);
        assert(a.last() == a[a.len() - 1]);
    }
}

impl View for MessageBrokerStore {
    type V = Map<Seq<char>, Map<u16, u64>>;

    closed spec fn view(&self) -> Map<Seq<char>, Map<u16, u64>> {
        entries_view(self.entries@)
    }
}

fn find_subject(entries: &Vec<Entry>, subject: &String) -> (r: Option<usize>)
    ensures
        r matches Some(i) ==> i < entries@.len() && entries@[i as int].subject@ == subject@,
        r is None ==> !has_subject(entries@, subject@),
{
    let n = entries.len();
    let mut i: usize = 0;
    while i < n
        invariant
            n == entries@.len(),
            i <= n,
            forall|k: int| 0 <= k < i ==> (#[trigger] entries@[k]).subject@ != subject@,
        decreases n - i,
    {
        if entries[i].subject == *subject {
            return Some(i);
        }
        i = i + 1;
    }
    None
}

fn find_sid(subs: &Vec<(u16, u64)>, sid: u16) -> (r: Option<usize>)
    ensures
        r matches Some(j) ==> j < subs@.len() && subs@[j as int].0 == sid,
        r is None ==> !has_sid(subs@, sid),
{
    let n = subs.len();
    let mut j: usize = 0;
    while j < n
        invariant
            n == subs@.len(),
            j <= n,
            forall|k: int| 0 <= k < j ==> (#[trigger] subs@[k]).0 != sid,
        decreases n - j,
    {
        if subs[j].0 == sid {
            return Some(j);
        }
        j = j + 1;
    }
    None
}

impl MessageBrokerStore {
    /// Internal consistency: at most one entry per subject, at most one
    /// slot per subscription id within a subject.
    pub closed spec fn wf(&self) -> bool {
        &&& distinct_subjects(self.entries@)
        &&& forall|i: int|
            0 <= i < self.entries@.len() ==> distinct_sids((#[trigger] self.entries@[i]).subs@)
    }

    /// An empty registry.
    pub fn new() -> (r: Self)
        ensures
            r.wf(),
            r@ == Map::<Seq<char>, Map<u16, u64>>::empty(),
    {
        MessageBrokerStore { entries: Vec::new() }
    }

    /// Registers `sub` under `subject`, delivering to `sink`. Returns
    /// whether the pair was newly inserted: re-subscribing an existing id
    /// is idempotent (the sink is refreshed), not an error. Never fails.
    pub fn add_subscription(
        &mut self,
        subject: Subject,
        sub: SubscriptionId,
        sink: SinkHandle,
    ) -> (r: Result<bool, &'static str>)
        requires
            old(self).wf(),
        ensures
            final(self).wf(),
            final(self)@ == add_view(old(self)@, subject.0@, sub.0, sink.0),
            r matches Ok(inserted) && inserted == !subs_of(old(self)@, subject.0@).contains_key(
                sub.0,
            ),
    {
        let ghost oe = self.entries@;
        match find_subject(&self.entries, &subject.0) {
            Some(i) => {
                proof {
                    lemma_entries_view_index(oe, i as int);
                    assert(subs_of(old(self)@, subject.0@) == subs_view(oe[i as int].subs@));
                }
                match find_sid(&self.entries[i].subs, sub.0) {
                    Some(j) => {
                        self.entries[i].subs[j] = (sub.0, sink.0);
                        proof {
                            let e = self.entries@[i as int];
                            assert(e.subject@ == oe[i as int].subject@);
                            assert(e.subs@ == oe[i as int].subs@.update(
                                j as int,
                                (sub.0, sink.0),
                            ));
                            assert(self.entries@ =~= oe.update(i as int, e));
                            lemma_subs_view_update(oe[i as int].subs@, j as int, sink.0);
                            lemma_entries_view_update(oe, i as int, e);
                            lemma_subs_view_index(oe[i as int].subs@, j as int);
                            // well-formedness: the subject list is unchanged
                            // and the updated slot keeps its id
                            assert forall|k: int|
                                0 <= k < self.entries@.len() implies distinct_sids(
                                (#[trigger] self.entries@[k]).subs@,
                            ) by {
                                if k != i as int {
                                    assert(self.entries@[k] == oe[k]);
                                }
                            }
                        }
                        Ok(false)
                    },
                    None => {
                        self.entries[i].subs.push((sub.0, sink.0));
                        proof {
                            let e = self.entries@[i as int];
                            assert(e.subject@ == oe[i as int].subject@);
                            assert(e.subs@ == oe[i as int].subs@.push((sub.0, sink.0)));
                            assert(self.entries@ =~= oe.update(i as int, e));
                            assert(e.subs@.drop_last() =~= oe[i as int].subs@);
                            assert(subs_view(e.subs@) == subs_view(oe[i as int].subs@).insert(
                                sub.0,
                                sink.0,
                            ));
                            lemma_entries_view_update(oe, i as int, e);
                            lemma_subs_view_contains(oe[i as int].subs@);
                            // well-formedness: the new slot's id was not
                            // present before
                            assert forall|k: int|
                                0 <= k < self.entries@.len() implies distinct_sids(
                                (#[trigger] self.entries@[k]).subs@,
                            ) by {
                                if k != i as int {
                                    assert(self.entries@[k] == oe[k]);
                                } else {
                                    let t = e.subs@;
                                    assert forall|x: int, y: int|
                                        0 <= x < y < t.len() implies (#[trigger] t[x]).0
                                        != (#[trigger] t[y]).0 by {
                                        if y < t.len() - 1 {
                                            assert(t[x] == oe[i as int].subs@[x]);
                                            assert(t[y] == oe[i as int].subs@[y]);
                                        } else {
                                            assert(t[x] == oe[i as int].subs@[x]);
                                        }
                                    }
                                }
                            }
                        }
                        Ok(true)
                    },
                }
            },
            None => {
                proof {
                    lemma_entries_view_contains(oe);
                    assert(!old(self)@.contains_key(subject.0@));
                }
                let mut subs: Vec<(u16, u64)> = Vec::new();
                subs.push((sub.0, sink.0));
                let ghost sv = subs@;
                let e = Entry { subject: subject.0, subs };
                proof {
                    assert(sv.len() == 1);
                    assert(sv.drop_last() =~= Seq::<(u16, u64)>::empty());
                    assert(subs_view(sv.drop_last()) =~= Map::<u16, u64>::empty());
                    assert(sv.last() == (sub.0, sink.0));
                    assert(subs_view(sv) =~= Map::<u16, u64>::empty().insert(sub.0, sink.0));
                }
                self.entries.push(e);
                proof {
                    assert(self.entries@.drop_last() =~= oe);
                    assert(final(self)@ == entries_view(oe).insert(
                        self.entries@.last().subject@,
                        subs_view(self.entries@.last().subs@),
                    ));
                    // well-formedness: the new subject was not present
                    assert forall|x: int, y: int|
                        0 <= x < y < self.entries@.len() implies (#[trigger] self.entries@[x]).subject@
                        != (#[trigger] self.entries@[y]).subject@ by {
                        if y < self.entries@.len() - 1 {
                            assert(self.entries@[x] == oe[x]);
                            assert(self.entries@[y] == oe[y]);
                        } else {
                            assert(self.entries@[x] == oe[x]);
                        }
                    }
                    assert forall|k: int|
                        0 <= k < self.entries@.len() implies distinct_sids(
                        (#[trigger] self.entries@[k]).subs@,
                    ) by {
                        if k < self.entries@.len() - 1 {
                            assert(self.entries@[k] == oe[k]);
                        }
                    }
                }
                Ok(true)
            },
        }
    }

    /// Removes `sub` from every subject it appears under (ids are global
    /// here, not scoped to one subject). Returns `Ok(true)` when the id
    /// was registered anywhere; reports not-found otherwise.
    pub fn remove_subscription(&mut self, sub: SubscriptionId) -> (r: Result<bool, &'static str>)
        requires
            old(self).wf(),
        ensures
            final(self).wf(),
            final(self)@ == remove_view(old(self)@, sub.0),
            has_subscriber(old(self)@, sub.0) ==> r == Ok::<bool, &'static str>(true),
            !has_subscriber(old(self)@, sub.0) ==> (r matches Err(m) && m@
                == "Subscription not found"@),
    {
        let ghost oe = self.entries@;
        let mut removed = false;
        let n = self.entries.len();
        let mut i: usize = 0;
        while i < n
            invariant
                n == self.entries@.len(),
                oe.len() == n,
                i <= n,
                distinct_subjects(oe),
                forall|k: int| 0 <= k < n ==> distinct_sids((#[trigger] oe[k]).subs@),
                forall|k: int|
                    0 <= k < n ==> (#[trigger] self.entries@[k]).subject@ == oe[k].subject@,
                forall|k: int|
                    0 <= k < i ==> subs_view((#[trigger] self.entries@[k]).subs@) == subs_view(
                        oe[k].subs@,
                    ).remove(sub.0),
                forall|k: int| i <= k < n ==> (#[trigger] self.entries@[k]).subs@ == oe[k].subs@,
                forall|k: int|
                    0 <= k < n ==> distinct_sids((#[trigger] self.entries@[k]).subs@),
                removed <==> exists|k: int| 0 <= k < i && #[trigger] has_sid(oe[k].subs@, sub.0),
            decreases n - i,
        {
            let ghost before = self.entries@[i as int].subs@;
            match find_sid(&self.entries[i].subs, sub.0) {
                Some(j) => {
                    let _ = self.entries[i].subs.remove(j);
                    removed = true;
                    proof {
                        let after = self.entries@[i as int].subs@;
                        assert(after == before.remove(j as int));
                        lemma_subs_view_remove(before, j as int);
                        assert(subs_view(after) == subs_view(oe[i as int].subs@).remove(sub.0));
                        // a removal keeps the remaining ids pairwise distinct
                        assert forall|x: int, y: int|
                            0 <= x < y < after.len() implies (#[trigger] after[x]).0
                            != (#[trigger] after[y]).0 by {
                            let x0 = if x < j { x } else { x + 1 };
                            let y0 = if y < j { y } else { y + 1 };
                            assert(after[x] == before[x0]);
                            assert(after[y] == before[y0]);
                        }
                        assert(has_sid(oe[i as int].subs@, sub.0));
                    }
                },
                None => {
                    proof {
                        lemma_subs_view_contains(before);
                        assert(subs_view(before).remove(sub.0) =~= subs_view(before));
                        assert(subs_view(self.entries@[i as int].subs@) == subs_view(
                            oe[i as int].subs@,
                        ).remove(sub.0));
                    }
                },
            }
            i = i + 1;
        }
        proof {
            lemma_entries_view_removed(oe, self.entries@, sub.0);
            lemma_entries_view_contains(oe);
            if removed {
                let k = choose|k: int| 0 <= k < n && #[trigger] has_sid(oe[k].subs@, sub.0);
                lemma_entries_view_index(oe, k);
                lemma_subs_view_contains(oe[k].subs@);
                assert(entries_view(oe).contains_key(oe[k].subject@) && entries_view(
                    oe,
                )[oe[k].subject@].contains_key(sub.0));
                assert(has_subscriber(old(self)@, sub.0));
            } else {
                assert forall|s: Seq<char>| #[trigger]
                    entries_view(oe).contains_key(s) implies !entries_view(oe)[s].contains_key(
                    sub.0,
                ) by {
                    assert(has_subject(oe, s));
                    let k = choose|k: int| 0 <= k < oe.len() && (#[trigger] oe[k]).subject@ == s;
                    lemma_entries_view_index(oe, k);
                    lemma_subs_view_contains(oe[k].subs@);
                    assert(!has_sid(oe[k].subs@, sub.0));
                }
                assert(!has_subscriber(old(self)@, sub.0));
            }
        }
        if removed {
            Ok(true)
        } else {
            Err("Subscription not found")
        }
    }

    /// Formats one message per current subscriber of `subject`, each
    /// carrying the subscriber's own id and sink: exactly one delivery per
    /// registered id, in registration order. A subject with no subscribers
    /// yields no deliveries. Writing them out happens outside the
    /// registry, after the lock on it is gone.
    pub fn publish_to_sub(&self, subject: Subject, message: String) -> (r: Vec<Delivery>)
        requires
            self.wf(),
        ensures
            deliveries_ok(self@, subject.0@, message@, r@),
    {
        let mut out: Vec<Delivery> = Vec::new();
        match find_subject(&self.entries, &subject.0) {
            Some(i) => {
                proof {
                    lemma_entries_view_index(self.entries@, i as int);
                    assert(subs_of(self@, subject.0@) == subs_view(
                        self.entries@[i as int].subs@,
                    ));
                }
                let ghost subs = self.entries@[i as int].subs@;
                let n = self.entries[i].subs.len();
                let mut j: usize = 0;
                while j < n
                    invariant
                        distinct_sids(subs),
                        i < self.entries@.len(),
                        subs == self.entries@[i as int].subs@,
                        n == subs.len(),
                        j <= n,
                        out@.len() == j,
                        forall|k: int|
                            0 <= k < j ==> (#[trigger] out@[k]).sid.0 == subs[k].0
                                && out@[k].sink.0 == subs[k].1 && out@[k].message@ == msg_text(
                                subject.0@,
                                subs[k].0,
                                message@,
                            ),
                    decreases n - j,
                {
                    let pair = self.entries[i].subs[j];
                    let m = format_msg(&subject.0, pair.0, &message);
                    out.push(
                        Delivery { sid: SubscriptionId(pair.0), sink: SinkHandle(pair.1), message: m },
                    );
                    j = j + 1;
                }
                proof {
                    assert forall|k: int|
                        0 <= k < out@.len() implies subs_view(subs).contains_key(
                        (#[trigger] out@[k]).sid.0,
                    ) && out@[k].sink.0 == subs_view(subs)[out@[k].sid.0] by {
                        lemma_subs_view_index(subs, k);
                    }
                    lemma_subs_view_contains(subs);
                    assert forall|sid: u16| #[trigger]
                        subs_of(self@, subject.0@).contains_key(sid) implies exists|k: int|
                        0 <= k < out@.len() && (#[trigger] out@[k]).sid.0 == sid by {
                        assert(subs_view(subs).contains_key(sid));
                        assert(has_sid(subs, sid));
                        let k = choose|k: int| 0 <= k < subs.len() && (#[trigger] subs[k]).0 == sid;
                        assert(out@[k].sid.0 == sid);
                    }
                    assert(deliveries_ok(self@, subject.0@, message@, out@));
                }
                out
            },
            None => {
                proof {
                    lemma_entries_view_contains(self.entries@);
                    assert(!self@.contains_key(subject.0@));
                    assert(subs_of(self@, subject.0@) =~= Map::<u16, u64>::empty());
                    assert(deliveries_ok(self@, subject.0@, message@, out@));
                }
                out
            },
        }
    }
}

/// What a publish fan-out must hand back, given registry `v`, the
/// published `subject` and `payload`: exactly one delivery per registered
/// subscriber of the subject, each addressed to that subscriber's sink and
/// carrying the wire form of the publication; none at all for a subject
/// with no entry.
pub open spec fn deliveries_ok(
    v: Map<Seq<char>, Map<u16, u64>>,
    subject: Seq<char>,
    payload: Seq<char>,
    ds: Seq<Delivery>,
) -> bool {
    &&& forall|k: int|
        0 <= k < ds.len() ==> subs_of(v, subject).contains_key((#[trigger] ds[k]).sid.0)
    &&& forall|k: int| 0 <= k < ds.len() ==> (#[trigger] ds[k]).sink.0 == subs_of(v, subject)[ds[k].sid.0]
    &&& forall|k: int|
        0 <= k < ds.len() ==> (#[trigger] ds[k]).message@ == msg_text(subject, ds[k].sid.0, payload)
    &&& forall|k: int, l: int|
        0 <= k < l < ds.len() ==> (#[trigger] ds[k]).sid.0 != (#[trigger] ds[l]).sid.0
    &&& forall|sid: u16| #[trigger]
        subs_of(v, subject).contains_key(sid) ==> exists|k: int|
            0 <= k < ds.len() && (#[trigger] ds[k]).sid.0 == sid
    &&& !v.contains_key(subject) ==> ds.len() == 0
}

/// The wire form of one delivered publication:
/// `-MSG <subject> <sid> <len>\r\n<payload>\r\n`, where `<len>` is the
/// payload's byte length.
pub open spec fn msg_text(subject: Seq<char>, sid: u16, payload: Seq<char>) -> Seq<char> {
    "-MSG "@ + subject + " "@ + dec_chars(sid as nat) + " "@ + dec_chars(byte_len(payload))
        + "\r\n"@ + payload + "\r\n"@
}

fn format_msg(subject: &String, sid: u16, payload: &String) -> (r: String)
    ensures
        r@ == msg_text(subject@, sid, payload@),
{
    let mut out = String::from_str("-MSG ");
    out.append(subject.as_str());
    out.append(" ");
    let sid_str = u64_to_string(sid as u64);
    out.append(sid_str.as_str());
    out.append(" ");
    let len_str = u64_to_string(payload.as_str().as_bytes().len() as u64);
    out.append(len_str.as_str());
    out.append("\r\n");
    out.append(payload.as_str());
    out.append("\r\n");
    proof {
        assert((sid as u64) as nat == sid as nat);
        assert(out@ =~= msg_text(subject@, sid, payload@));
    }
    out
}

/// Law: re-subscribing the same (subject, id) pair is idempotent. The
/// second registration leaves the registry exactly as it was, so the
/// subject's subscriber set does not grow; and `add_subscription` never
/// fails, so no error is raised either.
pub proof fn lemma_resubscribe_idempotent(
    v: Map<Seq<char>, Map<u16, u64>>,
    subject: Seq<char>,
    sid: u16,
    sink: u64,
)
    ensures
        add_view(add_view(v, subject, sid, sink), subject, sid, sink) == add_view(
            v,
            subject,
            sid,
            sink,
        ),
{
    let v1 = add_view(v, subject, sid, sink);
    assert(subs_of(v1, subject) =~= subs_of(v, subject).insert(sid, sink));
    assert(subs_of(v1, subject).insert(sid, sink) =~= subs_of(v1, subject));
    assert(add_view(v1, subject, sid, sink) =~= v1);
}

/// Law: removing an id removes it from every subject at once, and a
/// second removal changes nothing and finds nothing (so
/// `remove_subscription` then reports not-found without touching the
/// registry).
pub proof fn lemma_unsub_removes_everywhere(v: Map<Seq<char>, Map<u16, u64>>, sid: u16)
    ensures
        !has_subscriber(remove_view(v, sid), sid),
        remove_view(remove_view(v, sid), sid) == remove_view(v, sid),
{
    assert forall|s: Seq<char>| #[trigger]
        remove_view(v, sid).contains_key(s) implies !remove_view(v, sid)[s].contains_key(sid) by {
        assert(remove_view(v, sid)[s] == v[s].remove(sid));
    }
    assert forall|s: Seq<char>| #[trigger]
        remove_view(remove_view(v, sid), sid).contains_key(s) implies remove_view(
        remove_view(v, sid),
        sid,
    )[s] == remove_view(v, sid)[s] by {
        assert(remove_view(remove_view(v, sid), sid)[s] =~= remove_view(v, sid)[s]);
    }
    assert(remove_view(remove_view(v, sid), sid) =~= remove_view(v, sid));
}

/// Law: after `add_subscription`, the subject's subscriber map carries the
/// id with that sink.
pub proof fn lemma_subscribe_then_publish_targets(
    v: Map<Seq<char>, Map<u16, u64>>,
    subject: Seq<char>,
    sid: u16,
    sink: u64,
)
    ensures
        subs_of(add_view(v, subject, sid, sink), subject).contains_key(sid),
        subs_of(add_view(v, subject, sid, sink), subject)[sid] == sink,
{
}

/// Law: a subscriber registered under a subject receives a publication on
/// it exactly once. Whatever `publish_to_sub` returns on the registry
/// after the registration holds one and only one delivery for that id,
/// addressed to that sink and carrying the wire form of the payload.
pub proof fn lemma_sub_then_pub_delivers_exactly_once(
    v: Map<Seq<char>, Map<u16, u64>>,
    subject: Seq<char>,
    sid: u16,
    sink: u64,
    payload: Seq<char>,
    ds: Seq<Delivery>,
)
    requires
        deliveries_ok(add_view(v, subject, sid, sink), subject, payload, ds),
    ensures
        exists|k: int| 0 <= k < ds.len() && (#[trigger] ds[k]).sid.0 == sid,
        forall|k: int, l: int|
            0 <= k < l < ds.len() ==> !((#[trigger] ds[k]).sid.0 == sid && (#[trigger] ds[l]).sid.0
                == sid),
        forall|k: int|
            0 <= k < ds.len() && (#[trigger] ds[k]).sid.0 == sid ==> ds[k].sink.0 == sink
                && ds[k].message@ == msg_text(subject, sid, payload),
{
    let v1 = add_view(v, subject, sid, sink);
    assert(subs_of(v1, subject).contains_key(sid));
    assert(subs_of(v1, subject)[sid] == sink);
}

} // verus!

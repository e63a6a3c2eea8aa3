//! Per-round aggregation of dealings: detects when every node has contributed
//! to a round and reports that completion exactly once.

use vstd::prelude::*;
use std::collections::HashMap;
use crate::node_setup::{produce_dealing_value, IdentityError};
use crate::types::{Dealing, DealingValue, DealingView, NodeIndex, ProtocolRoundIndex};
use crate::utils::{bytes_eq, bytes_lt, copy_bytes, lex_lt};

verus! {

broadcast use vstd::std_specs::hash::group_hash_axioms;

/// What is known of one round: the latest payload of each sender, and
/// whether completion has been reported.
pub ghost struct RoundView {
    pub dealings: Map<Seq<u8>, Seq<u8>>,
    pub dispatched: bool,
}

/// Mathematical state of an aggregator.
pub ghost struct AggregatorView {
    pub node_count: nat,
    pub rounds: Map<u64, RoundView>,
}

/// A round nothing has arrived for.
pub open spec fn empty_round() -> RoundView {
    RoundView { dealings: Map::empty(), dispatched: false }
}

/// An aggregator expecting `node_count` contributions per round, with no
/// round started.
pub open spec fn initial_view(node_count: nat) -> AggregatorView {
    AggregatorView { node_count, rounds: Map::empty() }
}

impl AggregatorView {
    /// State of round `r` (empty when nothing has arrived for it).
    pub open spec fn round(self, r: u64) -> RoundView {
        if self.rounds.contains_key(r) {
            self.rounds[r]
        } else {
            empty_round()
        }
    }

    /// One arriving dealing: the next state, and whether the round of the
    /// dealing becomes complete with it (so its completion is reported now).
    /// A complete round keeps the first payload of each sender; an open one
    /// keeps the latest.
    pub open spec fn step(self, d: DealingView) -> (AggregatorView, bool) {
        let cur = self.round(d.round);
        let dealings = if cur.dispatched && cur.dealings.contains_key(d.sender) {
            cur.dealings
        } else {
            cur.dealings.insert(d.sender, d.payload)
        };
        let fire = !cur.dispatched && dealings.len() == self.node_count;
        (
            AggregatorView {
                node_count: self.node_count,
                rounds: self.rounds.insert(
                    d.round,
                    RoundView { dealings, dispatched: cur.dispatched || fire },
                ),
            },
            fire,
        )
    }

    /// The state after the dealings of `ds`, in order.
    pub open spec fn run(self, ds: Seq<DealingView>) -> AggregatorView
        decreases ds.len(),
    {
        if ds.len() == 0 {
            self
        } else {
            self.run(ds.drop_last()).step(ds.last()).0
        }
    }

    /// How many times completion of round `r` is reported while the dealings
    /// of `ds` arrive, in order.
    pub open spec fn dispatches(self, ds: Seq<DealingView>, r: u64) -> nat
        decreases ds.len(),
    {
        if ds.len() == 0 {
            0
        } else {
            self.dispatches(ds.drop_last(), r) + if ds.last().round == r && self.run(
                ds.drop_last(),
            ).step(ds.last()).1 {
                1nat
            } else {
                0nat
            }
        }
    }
}

/// The views of a sequence of dealings.
pub open spec fn views(s: Seq<Dealing>) -> Seq<DealingView> {
    s.map_values(|d: Dealing| d@)
}

/// Sender to payload, the later of two entries of one sender winning.
pub open spec fn entries_of(s: Seq<DealingView>) -> Map<Seq<u8>, Seq<u8>>
    decreases s.len(),
{
    if s.len() == 0 {
        Map::empty()
    } else {
        entries_of(s.drop_last()).insert(s.last().sender, s.last().payload)
    }
}

/// No two entries of `s` have the same sender.
pub open spec fn distinct_senders(s: Seq<DealingView>) -> bool {
    forall|i: int, j: int|
        0 <= i < s.len() && 0 <= j < s.len() && i != j ==> s[i].sender != s[j].sender
}

proof fn lemma_entries_dom(s: Seq<DealingView>, k: Seq<u8>)
    ensures
        entries_of(s).contains_key(k) <==> exists|i: int| 0 <= i < s.len() && s[i].sender == k,
    decreases s.len(),
{
    if s.len() > 0 {
        lemma_entries_dom(s.drop_last(), k);
        if entries_of(s.drop_last()).contains_key(k) {
            let i = choose|i: int| 0 <= i < s.len() - 1 && s.drop_last()[i].sender == k;
            assert(s[i].sender == k);
        }
        if exists|i: int| 0 <= i < s.len() && s[i].sender == k {
            let i = choose|i: int| 0 <= i < s.len() && s[i].sender == k;
            if i < s.len() - 1 {
                assert(s.drop_last()[i].sender == k);
            }
        }
    }
}

proof fn lemma_entries_len(s: Seq<DealingView>)
    requires
        distinct_senders(s),
    ensures
        entries_of(s).dom().finite(),
        entries_of(s).len() == s.len(),
    decreases s.len(),
{
    if s.len() > 0 {
        let p = s.drop_last();
        assert(distinct_senders(p));
        lemma_entries_len(p);
        lemma_entries_dom(p, s.last().sender);
        assert(!entries_of(p).contains_key(s.last().sender));
    }
}

proof fn lemma_entries_update(s: Seq<DealingView>, i: int, d: DealingView)
    requires
        distinct_senders(s),
        0 <= i < s.len(),
        s[i].sender == d.sender,
    ensures
        entries_of(s.update(i, d)) == entries_of(s).insert(d.sender, d.payload),
    decreases s.len(),
{
    let t = s.update(i, d);
    let p = s.drop_last();
    if i == s.len() - 1 {
        assert(t.drop_last() =~= p);
        assert(entries_of(t) =~= entries_of(s).insert(d.sender, d.payload));
    } else {
        assert(t.drop_last() =~= p.update(i, d));
        assert(distinct_senders(p));
        lemma_entries_update(p, i, d);
        assert(s.last().sender != d.sender);
        assert(entries_of(t) =~= entries_of(s).insert(d.sender, d.payload));
    }
}

/// The senders of round `r` among `ds`.
pub open spec fn senders_in(ds: Seq<DealingView>, r: u64) -> Set<Seq<u8>> {
    Set::new(|s: Seq<u8>| exists|i: int| 0 <= i < ds.len() && ds[i].round == r && ds[i].sender == s)
}

proof fn lemma_senders_in_last(ds: Seq<DealingView>, r: u64)
    requires
        ds.len() > 0,
    ensures
        senders_in(ds, r) == if ds.last().round == r {
            senders_in(ds.drop_last(), r).insert(ds.last().sender)
        } else {
            senders_in(ds.drop_last(), r)
        },
{
    let p = ds.drop_last();
    let target = if ds.last().round == r {
        senders_in(p, r).insert(ds.last().sender)
    } else {
        senders_in(p, r)
    };
    assert forall|s: Seq<u8>| senders_in(ds, r).contains(s) == target.contains(s) by {
        if senders_in(ds, r).contains(s) {
            let i = choose|i: int| 0 <= i < ds.len() && ds[i].round == r && ds[i].sender == s;
            if i < ds.len() - 1 {
                assert(p[i] == ds[i]);
            }
        }
        if senders_in(p, r).contains(s) {
            let i = choose|i: int| 0 <= i < p.len() && p[i].round == r && p[i].sender == s;
            assert(ds[i] == p[i]);
        }
        if ds.last().round == r && s == ds.last().sender {
            assert(ds[ds.len() - 1] == ds.last());
        }
    }
    assert(senders_in(ds, r) =~= target);
}

/// Whatever dealings arrive, and in whatever order, a round is complete
/// exactly when the distinct senders that contributed to it number at
/// least the node count; the round holds one entry per such sender.
/// Since senders join a round one at a time, completion happens when that
/// count reaches the node count.
pub proof fn lemma_complete_iff_all_senders(node_count: nat, ds: Seq<DealingView>, r: u64)
    requires
        node_count >= 1,
    ensures
        initial_view(node_count).run(ds).node_count == node_count,
        senders_in(ds, r).finite(),
        initial_view(node_count).run(ds).round(r).dealings.dom() == senders_in(ds, r),
        initial_view(node_count).run(ds).round(r).dispatched <==> senders_in(ds, r).len()
            >= node_count,
    decreases ds.len(),
{
    let a0 = initial_view(node_count);
    if ds.len() == 0 {
        assert(senders_in(ds, r) =~= Set::empty());
        assert(a0.run(ds).round(r).dealings.dom() =~= Set::empty());
        assert(!a0.run(ds).round(r).dispatched);
    } else {
        let p = ds.drop_last();
        let d = ds.last();
        lemma_complete_iff_all_senders(node_count, p, r);
        lemma_senders_in_last(ds, r);
        let a = a0.run(p);
        let cur = a.round(d.round);
        if d.round == r {
            let next = a.step(d).0.round(r);
            assert(next.dealings.dom() =~= cur.dealings.dom().insert(d.sender));
            assert(cur.dealings.len() == senders_in(p, r).len());
            assert(cur.dispatched ==> next.dispatched);
            if !cur.dealings.contains_key(d.sender) {
                assert(next.dealings.len() == cur.dealings.len() + 1);
            } else {
                assert(next.dealings.dom() =~= cur.dealings.dom());
            }
            assert(next.dealings.len() == senders_in(ds, r).len());
            assert(next.dealings.len() <= cur.dealings.len() + 1);
            assert(!cur.dispatched ==> cur.dealings.len() < node_count);
            assert(next.dispatched == (cur.dispatched || next.dealings.len() == node_count));
            assert(next.dispatched <==> senders_in(ds, r).len() >= node_count);
        } else {
            assert(a.step(d).0.round(r) == a.round(r));
        }
    }
}

/// A dealing from a sender the round already holds leaves the round's
/// set of senders, and so its count, as it was.
pub proof fn lemma_reinsert_keeps_senders(a: AggregatorView, d: DealingView)
    requires
        a.round(d.round).dealings.contains_key(d.sender),
    ensures
        a.step(d).0.round(d.round).dealings.dom() == a.round(d.round).dealings.dom(),
        a.step(d).0.round(d.round).dealings.len() == a.round(d.round).dealings.len(),
{
    assert(a.step(d).0.round(d.round).dealings.dom() =~= a.round(d.round).dealings.dom());
}

/// Whatever dealings arrive, and in whatever order, the completion of a
/// round is reported at most once, and exactly once if the round is
/// complete at the end.
pub proof fn lemma_dispatched_once(node_count: nat, ds: Seq<DealingView>, r: u64)
    ensures
        initial_view(node_count).dispatches(ds, r) == if initial_view(node_count).run(ds).round(
            r,
        ).dispatched {
            1nat
        } else {
            0nat
        },
    decreases ds.len(),
{
    if ds.len() > 0 {
        let p = ds.drop_last();
        let d = ds.last();
        lemma_dispatched_once(node_count, p, r);
        let a = initial_view(node_count).run(p);
        if d.round != r {
            assert(a.step(d).0.round(r) == a.round(r));
        }
    }
}

/// The dealings of one round, senders distinct.
struct RoundSlot {
    dealings: Vec<Dealing>,
    dispatched: bool,
}

impl RoundSlot {
    spec fn view(&self) -> RoundView {
        RoundView { dealings: entries_of(views(self.dealings@)), dispatched: self.dispatched }
    }

    spec fn wf(&self, r: u64) -> bool {
        &&& distinct_senders(views(self.dealings@))
        &&& forall|i: int| 0 <= i < self.dealings@.len() ==> #[trigger] self.dealings@[i].protocol_round == r
    }
}

/// Position of the entry of `sender` in `s`, if any.
fn find_sender(s: &Vec<Dealing>, sender: &Vec<u8>) -> (r: Option<usize>)
    ensures
        match r {
            Some(i) => i < s@.len() && s@[i as int].public_key@ == sender@,
            None => forall|i: int| 0 <= i < s@.len() ==> s@[i].public_key@ != sender@,
        },
{
    let mut i: usize = 0;
    while i < s.len()
        invariant
            0 <= i <= s@.len(),
            forall|k: int| 0 <= k < i ==> s@[k].public_key@ != sender@,
        decreases s@.len() - i,
    {
        if bytes_eq(s[i].public_key.as_slice(), sender.as_slice()) {
            return Some(i);
        }
        i = i + 1;
    }
    None
}

/// A copy of each dealing of `s`.
fn copy_dealings(s: &Vec<Dealing>) -> (r: Vec<Dealing>)
    ensures
        views(r@) == views(s@),
{
    let mut r: Vec<Dealing> = Vec::new();
    let mut i: usize = 0;
    while i < s.len()
        invariant
            0 <= i <= s@.len(),
            r@.len() == i,
            forall|k: int| 0 <= k < i ==> #[trigger] r@[k]@ == s@[k]@,
        decreases s@.len() - i,
    {
        r.push(s[i].duplicate());
        i = i + 1;
    }
    assert(views(r@) =~= views(s@));
    r
}

/// Collects the dealings of every round and reports each round's
/// completion once.
pub struct RoundAggregator {
    node_count: u32,
    rounds: HashMap<ProtocolRoundIndex, RoundSlot>,
}

impl View for RoundAggregator {
    type V = AggregatorView;

    closed spec fn view(&self) -> AggregatorView {
        AggregatorView {
            node_count: self.node_count as nat,
            rounds: self.rounds@.map_values(|s: RoundSlot| s.view()),
        }
    }
}

impl RoundAggregator {
    /// The representation invariant.
    pub closed spec fn wf(&self) -> bool {
        forall|r: u64| #[trigger] self.rounds@.contains_key(r) ==> self.rounds@[r].wf(r)
    }

    /// An aggregator for a network of `node_count` nodes, this one included.
    pub fn new(node_count: u32) -> (r: Self)
        ensures
            r.wf(),
            r@ == initial_view(node_count as nat),
    {
        let r = RoundAggregator { node_count, rounds: HashMap::new() };
        assert(r@.rounds =~= Map::empty());
        r
    }

    /// Records `d`. Returns the round's dealings when the round becomes
    /// complete with this dealing, `None` otherwise.
    pub fn insert(&mut self, d: Dealing) -> (r: Option<Vec<Dealing>>)
        requires
            old(self).wf(),
        ensures
            final(self).wf(),
            final(self)@ == old(self)@.step(d@).0,
            r is Some == old(self)@.step(d@).1,
            r matches Some(v) ==> {
                &&& entries_of(views(v@)) == final(self)@.round(d@.round).dealings
                &&& distinct_senders(views(v@))
                &&& v@.len() == final(self)@.node_count
                &&& forall|i: int| 0 <= i < v@.len() ==> (#[trigger] v@[i]).protocol_round == d.protocol_round
            },
    {
        let key = d.protocol_round;
        let ghost old_view = self@;
        let ghost old_rounds = self.rounds@;
        let removed = self.rounds.remove(&key);
        let mut slot = match removed {
            Some(s) => s,
            None => RoundSlot { dealings: Vec::new(), dispatched: false },
        };
        proof {
            if !old_rounds.contains_key(key) {
                assert(entries_of(views(slot.dealings@)) =~= Map::empty());
            }
            assert(slot.view() == old_view.round(key));
            assert(slot.wf(key));
        }
        let ghost before = slot.dealings@;
        let ghost dv = d@;
        let pos = find_sender(&slot.dealings, &d.public_key);
        match pos {
            Some(i) => {
                if !slot.dispatched {
                    slot.dealings.set(i, d);
                    proof {
                        assert(views(slot.dealings@) =~= views(before).update(i as int, dv));
                        lemma_entries_update(views(before), i as int, dv);
                        let vs = views(slot.dealings@);
                        assert forall|a: int, b: int|
                            0 <= a < vs.len() && 0 <= b < vs.len() && a != b implies vs[a].sender
                            != vs[b].sender by {
                            assert(views(before)[a].sender == vs[a].sender);
                            assert(views(before)[b].sender == vs[b].sender);
                        }
                    }
                }
                proof {
                    lemma_entries_dom(views(before), dv.sender);
                    assert(views(before)[i as int].sender == dv.sender);
                }
            },
            None => {
                slot.dealings.push(d);
                proof {
                    let vs = views(slot.dealings@);
                    assert(vs.drop_last() =~= views(before));
                    assert forall|a: int, b: int|
                        0 <= a < vs.len() && 0 <= b < vs.len() && a != b implies vs[a].sender
                        != vs[b].sender by {
                        if a < vs.len() - 1 && b < vs.len() - 1 {
                            assert(vs[a] == views(before)[a]);
                            assert(vs[b] == views(before)[b]);
                        } else if a < vs.len() - 1 {
                            assert(vs[a].sender == before[a].public_key@);
                        } else {
                            assert(vs[b].sender == before[b].public_key@);
                        }
                    }
                    assert(distinct_senders(vs));
                    lemma_entries_dom(views(before), dv.sender);
                    assert(vs.last() == dv);
                    assert(entries_of(vs) == entries_of(views(before)).insert(dv.sender, dv.payload));
                }
            },
        }
        proof {
            lemma_entries_len(views(slot.dealings@));
            let cur = old_view.round(key);
            let expected = if cur.dispatched && cur.dealings.contains_key(dv.sender) {
                cur.dealings
            } else {
                cur.dealings.insert(dv.sender, dv.payload)
            };
            assert(entries_of(views(slot.dealings@)) == expected);
            assert(slot.dispatched == cur.dispatched);
        }
        let fire = !slot.dispatched && slot.dealings.len() == self.node_count as usize;
        let mut out: Option<Vec<Dealing>> = None;
        if fire {
            slot.dispatched = true;
            let v = copy_dealings(&slot.dealings);
            proof {
                assert(views(v@).len() == v@.len());
                assert forall|i: int| 0 <= i < v@.len() implies (#[trigger] v@[i]).protocol_round
                    == key by {
                    assert(views(v@)[i] == v@[i]@);
                    assert(views(slot.dealings@)[i] == slot.dealings@[i]@);
                }
            }
            out = Some(v);
        }
        let ghost new_slot_view = slot.view();
        assert(slot.wf(key));
        self.rounds.insert(key, slot);
        proof {
            assert(self@.rounds =~= old_view.rounds.insert(key, new_slot_view));
            assert(self@.round(key) == new_slot_view);
            assert(new_slot_view == old_view.step(dv).0.rounds[key]);
        }
        out
    }
}

/// Why processing a completed round failed.
#[derive(Debug, PartialEq, Eq, Structural)]
pub enum CompletionError {
    /// The round does not hold one dealing per node.
    WrongCount,
    /// The key material for the processing could not be made.
    Identity(IdentityError),
}

/// Each sender of `s` is not less than the one before it, in the
/// lexicographic byte order of identities.
pub open spec fn sorted_by_sender(s: Seq<DealingView>) -> bool {
    forall|k: int| 0 < k < s.len() ==> !lex_lt(#[trigger] s[k].sender, s[k - 1].sender)
}

proof fn lemma_lex_lt_asymmetric(a: Seq<u8>, b: Seq<u8>)
    ensures
        lex_lt(a, b) ==> !lex_lt(b, a),
    decreases a.len(),
{
    if a.len() > 0 && b.len() > 0 && a[0] == b[0] {
        lemma_lex_lt_asymmetric(a.drop_first(), b.drop_first());
    }
}

/// The dealings of `dealings` ordered by sender identity.
pub fn sort_by_sender(dealings: &Vec<Dealing>) -> (r: Vec<Dealing>)
    ensures
        views(r@).to_multiset() == views(dealings@).to_multiset(),
        sorted_by_sender(views(r@)),
{
    broadcast use vstd::seq_lib::group_to_multiset_ensures;

    let mut out: Vec<Dealing> = Vec::new();
    let mut i: usize = 0;
    while i < dealings.len()
        invariant
            0 <= i <= dealings@.len(),
            views(out@).to_multiset() == views(dealings@.take(i as int)).to_multiset(),
            sorted_by_sender(views(out@)),
        decreases dealings@.len() - i,
    {
        let x = dealings[i].duplicate();
        let mut j: usize = 0;
        while j < out.len() && bytes_lt(out[j].public_key.as_slice(), x.public_key.as_slice())
            invariant
                j <= out@.len(),
                j > 0 ==> lex_lt(out@[j - 1].public_key@, x.public_key@),
            decreases out@.len() - j,
        {
            j = j + 1;
        }
        let ghost before = views(out@);
        let ghost xv = x@;
        out.insert(j, x);
        proof {
            let t = views(out@);
            assert(t =~= before.insert(j as int, xv));
            assert(t.remove(j as int) =~= before);
            assert(t[j as int] == xv);
            assert(t.contains(xv));
            t.to_multiset_ensures();
            views(dealings@.take(i as int)).to_multiset_ensures();
            assert(t.remove(j as int).to_multiset() =~= t.to_multiset().remove(t[j as int]));
            assert(before.to_multiset() =~= t.to_multiset().remove(xv));
            assert(t.to_multiset().count(xv) > 0);
            assert(t.to_multiset() =~= before.to_multiset().insert(xv));
            assert(views(dealings@.take(i + 1)) =~= views(dealings@.take(i as int)).push(xv));
            if j > 0 {
                lemma_lex_lt_asymmetric(before[j - 1].sender, xv.sender);
            }
            assert forall|k: int| 0 < k < t.len() implies !lex_lt(#[trigger] t[k].sender, t[k - 1].sender) by {
                if k < j {
                    assert(t[k] == before[k] && t[k - 1] == before[k - 1]);
                } else if k == j {
                } else if k == j + 1 {
                    assert(t[k] == before[j as int]);
                } else {
                    assert(t[k] == before[k - 1] && t[k - 1] == before[k - 2]);
                }
            }
        }
        i = i + 1;
    }
    assert(dealings@.take(i as int) =~= dealings@);
    out
}

/// Processes a completed round: does the round's expensive work, then
/// lists the payloads in the order of their senders' identities, each with
/// its index in that order.
pub fn handle_received_dealings(dealings: &Vec<Dealing>, node_count: u32) -> (r: Result<
    Vec<(NodeIndex, DealingValue)>,
    CompletionError,
>)
    ensures
        dealings@.len() != node_count ==> r == Err::<Vec<(NodeIndex, DealingValue)>, CompletionError>(
            CompletionError::WrongCount,
        ),
        r matches Err(CompletionError::WrongCount) ==> dealings@.len() != node_count,
        dealings@.len() == node_count && node_count == 0 ==> r is Ok,
        r matches Ok(v) ==> exists|s: Seq<DealingView>|
            {
                &&& s.to_multiset() == views(dealings@).to_multiset()
                &&& sorted_by_sender(s)
                &&& s.len() == v@.len()
                &&& forall|k: int|
                    0 <= k < v@.len() ==> (#[trigger] v@[k]).0 == k && v@[k].1@ == s[k].payload
            },
{
    broadcast use vstd::seq_lib::group_to_multiset_ensures;

    if dealings.len() != node_count as usize {
        return Err(CompletionError::WrongCount);
    }
    let sorted = sort_by_sender(dealings);
    let ghost sv = views(sorted@);
    let mut indexed: Vec<(NodeIndex, DealingValue)> = Vec::new();
    let mut k: usize = 0;
    while k < sorted.len()
        invariant
            sv == views(sorted@),
            0 <= k <= sorted@.len(),
            indexed@.len() == k,
            forall|m: int|
                0 <= m < k ==> (#[trigger] indexed@[m]).0 == m && indexed@[m].1@ == sv[m].payload,
        decreases sorted@.len() - k,
    {
        indexed.push((k, copy_bytes(sorted[k].dealing.as_slice())));
        k = k + 1;
    }
    match produce_dealing_value(node_count) {
        Ok(_) => {
            assert(sv.len() == indexed@.len());
            Ok(indexed)
        },
        Err(e) => Err(CompletionError::Identity(e)),
    }
}

} // verus!

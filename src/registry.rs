//! The client registry of the broadcast router: one write handle per client
//! believed live, in insertion order. A client enters when its connection is
//! accepted and leaves when a broadcast write to it fails.

use vstd::prelude::*;
use vstd::utf8::{decode_utf8, encode_utf8, valid_utf8};

use crate::frame::{
    frame_of, has_no_zero, lemma_message_round_trip, payload_of, FRAME_SIZE,
};

verus! {

/// The entries of `s` whose flag in `ok` (at the same position) is set, in
/// their order.
pub open spec fn kept<A>(s: Seq<A>, ok: Seq<bool>) -> Seq<A>
    decreases s.len(),
{
    if s.len() == 0 {
        Seq::empty()
    } else if ok[s.len() - 1] {
        kept(s.drop_last(), ok).push(s.last())
    } else {
        kept(s.drop_last(), ok)
    }
}

/// The flags of `ok`, each negated.
pub open spec fn negated(ok: Seq<bool>) -> Seq<bool> {
    ok.map_values(|b: bool| !b)
}

/// The logs of frames per client after a round that wrote `frame` to the
/// clients `ids`, with `ok` telling at each position whether the write
/// succeeded: a client whose write succeeded has `frame` appended to its log.
pub open spec fn deliver(
    logs: Map<u64, Seq<Seq<u8>>>,
    ids: Seq<u64>,
    ok: Seq<bool>,
    frame: Seq<u8>,
) -> Map<u64, Seq<Seq<u8>>> {
    Map::new(
        |id: u64| logs.dom().contains(id),
        |id: u64|
            if kept(ids, ok).contains(id) {
                logs[id].push(frame)
            } else {
                logs[id]
            },
    )
}

/// How many times `x` occurs in `s`.
pub open spec fn occurrences(s: Seq<u64>, x: u64) -> nat
    decreases s.len(),
{
    if s.len() == 0 {
        0
    } else {
        occurrences(s.drop_last(), x) + if s.last() == x {
            1nat
        } else {
            0nat
        }
    }
}

pub proof fn lemma_occurrences_absent(s: Seq<u64>, x: u64)
    requires
        !s.contains(x),
    ensures
        occurrences(s, x) == 0,
    decreases s.len(),
{
    if s.len() > 0 {
        assert(!s.drop_last().contains(x)) by {
            if s.drop_last().contains(x) {
                let j = choose|j: int| 0 <= j < s.len() - 1 && s.drop_last()[j] == x;
                assert(s[j] == x);
            }
        }
        lemma_occurrences_absent(s.drop_last(), x);
    }
}

/// An entry is kept exactly when it stands at a position whose flag is set.
pub proof fn lemma_kept_contains<A>(s: Seq<A>, ok: Seq<bool>, x: A)
    ensures
        kept(s, ok).contains(x) <==> exists|j: int| 0 <= j < s.len() && s[j] == x && ok[j],
    decreases s.len(),
{
    if s.len() > 0 {
        let n = s.len() - 1;
        lemma_kept_contains(s.drop_last(), ok, x);
        if kept(s, ok).contains(x) {
            if ok[n] && x == s.last() {
                assert(s[n] == x && ok[n]);
            } else {
                let j = choose|j: int| 0 <= j < n && s.drop_last()[j] == x && ok[j];
                assert(s[j] == x);
            }
        }
        if exists|j: int| 0 <= j < s.len() && s[j] == x && ok[j] {
            let j = choose|j: int| 0 <= j < s.len() && s[j] == x && ok[j];
            if j < n {
                assert(s.drop_last()[j] == x);
                let k = kept(s.drop_last(), ok);
                if ok[n] {
                    let t = choose|t: int| 0 <= t < k.len() && k[t] == x;
                    assert(k.push(s.last())[t] == x);
                }
            } else {
                assert(kept(s, ok).last() == x);
            }
        }
    }
}

/// Keeping entries of a sequence without duplicates leaves none.
pub proof fn lemma_kept_no_duplicates<A>(s: Seq<A>, ok: Seq<bool>)
    requires
        s.no_duplicates(),
    ensures
        kept(s, ok).no_duplicates(),
    decreases s.len(),
{
    if s.len() > 0 {
        let n = s.len() - 1;
        let k = kept(s.drop_last(), ok);
        lemma_kept_no_duplicates(s.drop_last(), ok);
        if ok[n] {
            lemma_kept_contains(s.drop_last(), ok, s.last());
            assert(!k.contains(s.last()));
            let r = k.push(s.last());
            assert forall|a: int, b: int| 0 <= a < b < r.len() implies r[a] != r[b] by {
                if b == k.len() {
                    assert(k.contains(r[a]));
                }
            }
        }
    }
}

/// Keeping commutes with mapping the entries.
pub proof fn lemma_kept_map<A, B>(s: Seq<A>, ok: Seq<bool>, f: spec_fn(A) -> B)
    ensures
        kept(s.map_values(f), ok) == kept(s, ok).map_values(f),
    decreases s.len(),
{
    if s.len() > 0 {
        assert(s.map_values(f).drop_last() =~= s.drop_last().map_values(f));
        lemma_kept_map(s.drop_last(), ok, f);
        assert(kept(s.map_values(f), ok) =~= kept(s, ok).map_values(f));
    } else {
        assert(kept(s.map_values(f), ok) =~= kept(s, ok).map_values(f));
    }
}

/// Keeping every entry keeps the sequence as it is.
pub proof fn lemma_kept_all<A>(s: Seq<A>, ok: Seq<bool>)
    requires
        forall|i: int| 0 <= i < s.len() ==> ok[i],
    ensures
        kept(s, ok) == s,
    decreases s.len(),
{
    if s.len() > 0 {
        lemma_kept_all(s.drop_last(), ok);
        assert(s.drop_last().push(s.last()) =~= s);
    }
}

/// Fan-out: when every write of a round succeeds, every registered client
/// stays registered and has the round's frame appended to its log; and
/// the frame of a message shorter than a frame, holding no zero byte,
/// decodes to that message.
pub proof fn lemma_fan_out(
    sent: Map<u64, Seq<Seq<u8>>>,
    ids: Seq<u64>,
    delivered: Seq<bool>,
    message: Seq<char>,
)
    requires
        delivered.len() == ids.len(),
        forall|i: int| 0 <= i < delivered.len() ==> delivered[i],
        forall|i: int| 0 <= i < ids.len() ==> sent.dom().contains(ids[i]),
        encode_utf8(message).len() < FRAME_SIZE,
        has_no_zero(encode_utf8(message)),
    ensures
        kept(ids, delivered) == ids,
        forall|i: int|
            0 <= i < ids.len() ==> deliver(
                sent,
                ids,
                delivered,
                frame_of(encode_utf8(message)),
            )[#[trigger] ids[i]] == sent[ids[i]].push(frame_of(encode_utf8(message))),
        frame_of(encode_utf8(message)).len() == FRAME_SIZE,
        valid_utf8(payload_of(frame_of(encode_utf8(message)))),
        decode_utf8(payload_of(frame_of(encode_utf8(message)))) == message,
{
    lemma_kept_all(ids, delivered);
    lemma_message_round_trip(message);
    assert forall|i: int| 0 <= i < ids.len() implies kept(ids, delivered).contains(
        #[trigger] ids[i],
    ) by {
        assert(kept(ids, delivered)[i] == ids[i]);
    }
}

/// Isolation: a client whose write fails leaves the registry with its log
/// unchanged, and every other client stays or leaves, and receives the
/// frame or not, exactly as if that write had succeeded.
pub proof fn lemma_isolation(
    sent: Map<u64, Seq<Seq<u8>>>,
    ids: Seq<u64>,
    delivered: Seq<bool>,
    frame: Seq<u8>,
    k: int,
)
    requires
        ids.no_duplicates(),
        delivered.len() == ids.len(),
        0 <= k < ids.len(),
        !delivered[k],
    ensures
        !kept(ids, delivered).contains(ids[k]),
        sent.dom().contains(ids[k]) ==> deliver(sent, ids, delivered, frame)[ids[k]] == sent[ids[k]],
        deliver(sent, ids, delivered, frame).dom() == deliver(
            sent,
            ids,
            delivered.update(k, true),
            frame,
        ).dom(),
        forall|x: u64|
            x != ids[k] ==> (#[trigger] kept(ids, delivered).contains(x) <==> kept(
                ids,
                delivered.update(k, true),
            ).contains(x)),
        forall|x: u64|
            x != ids[k] && sent.dom().contains(x) ==> #[trigger] deliver(
                sent,
                ids,
                delivered,
                frame,
            )[x] == deliver(
                sent,
                ids,
                delivered.update(k, true),
                frame,
            )[x],
{
    let all = delivered.update(k, true);
    lemma_kept_contains(ids, delivered, ids[k]);
    assert forall|x: u64| x != ids[k] implies (#[trigger] kept(ids, delivered).contains(x)
        <==> kept(ids, all).contains(x)) by {
        lemma_kept_contains(ids, delivered, x);
        lemma_kept_contains(ids, all, x);
        if kept(ids, all).contains(x) {
            let j = choose|j: int| 0 <= j < ids.len() && ids[j] == x && all[j];
            assert(ids[j] == x && delivered[j]);
        }
        if kept(ids, delivered).contains(x) {
            let j = choose|j: int| 0 <= j < ids.len() && ids[j] == x && delivered[j];
            assert(ids[j] == x && all[j]);
        }
    }
    assert(deliver(sent, ids, delivered, frame).dom() =~= deliver(sent, ids, all, frame).dom());
}

/// Ordering: over two rounds, the first writing `first` and the second
/// `second`, every client registered through both rounds has `first` and
/// then `second` appended to its log.
pub proof fn lemma_round_order(
    sent: Map<u64, Seq<Seq<u8>>>,
    ids: Seq<u64>,
    delivered_first: Seq<bool>,
    first: Seq<u8>,
    delivered_second: Seq<bool>,
    second: Seq<u8>,
)
    requires
        delivered_first.len() == ids.len(),
        delivered_second.len() == kept(ids, delivered_first).len(),
    ensures
        forall|x: u64|
            sent.dom().contains(x) && #[trigger] kept(
                kept(ids, delivered_first),
                delivered_second,
            ).contains(x) ==> deliver(
                deliver(sent, ids, delivered_first, first),
                kept(ids, delivered_first),
                delivered_second,
                second,
            )[x] == sent[x].push(first).push(second),
{
    let ids1 = kept(ids, delivered_first);
    assert forall|x: u64|
        sent.dom().contains(x) && #[trigger] kept(ids1, delivered_second).contains(
            x,
        ) implies deliver(deliver(sent, ids, delivered_first, first), ids1, delivered_second, second)[x]
        == sent[x].push(first).push(second) by {
        lemma_kept_contains(ids1, delivered_second, x);
        let j = choose|j: int| 0 <= j < ids1.len() && ids1[j] == x && delivered_second[j];
        assert(ids1.contains(x));
    }
}

/// One registered client: the id the registry gave it and its write handle.
struct Client<H> {
    id: u64,
    handle: H,
}

/// The live clients' write handles, each under an id unique over the
/// registry's life, with the log of the frames written to each client.
pub struct Registry<H> {
    clients: Vec<Client<H>>,
    next_id: u64,
    sent: Ghost<Map<u64, Seq<Seq<u8>>>>,
}

spec fn ids_of<H>(clients: Seq<Client<H>>) -> Seq<u64> {
    clients.map_values(|c: Client<H>| c.id)
}

spec fn handles_of<H>(clients: Seq<Client<H>>) -> Seq<H> {
    clients.map_values(|c: Client<H>| c.handle)
}

impl<H> View for Registry<H> {
    type V = Seq<u64>;

    /// The ids of the registered clients, in broadcast order.
    closed spec fn view(&self) -> Seq<u64> {
        ids_of(self.clients@)
    }
}

impl<H> Registry<H> {
    /// The write handles of the registered clients, in broadcast order.
    pub closed spec fn handles(&self) -> Seq<H> {
        handles_of(self.clients@)
    }

    /// For every client ever registered, the frames successfully written
    /// to it, oldest first.
    pub closed spec fn sent(&self) -> Map<u64, Seq<Seq<u8>>> {
        self.sent@
    }

    /// How many ids have been handed out.
    pub closed spec fn issued(&self) -> nat {
        self.next_id as nat
    }

    pub closed spec fn wf(&self) -> bool {
        &&& ids_of(self.clients@).no_duplicates()
        &&& forall|id: u64|
            #[trigger] ids_of(self.clients@).contains(id) ==> self.sent@.dom().contains(id)
        &&& forall|id: u64| #[trigger] self.sent@.dom().contains(id) ==> id < self.next_id
    }

    /// An empty registry.
    pub fn new() -> (r: Self)
        ensures
            r.wf(),
            r@ == Seq::<u64>::empty(),
            r.handles() == Seq::<H>::empty(),
            r.sent() == Map::<u64, Seq<Seq<u8>>>::empty(),
            r.issued() == 0,
    {
        let r = Registry { clients: Vec::new(), next_id: 0, sent: Ghost(Map::empty()) };
        assert(ids_of(r.clients@) =~= Seq::<u64>::empty());
        assert(handles_of(r.clients@) =~= Seq::<H>::empty());
        r
    }

    /// Registers a newly accepted client's write handle at the end of the
    /// broadcast order, under a fresh id, with an empty log. Returns `None`,
    /// changing nothing, only once every `u64` id has been handed out.
    pub fn register(&mut self, handle: H) -> (id: Option<u64>)
        requires
            old(self).wf(),
        ensures
            final(self).wf(),
            id is Some <==> old(self).issued() < u64::MAX,
            id matches Some(id) ==> {
                &&& !old(self).sent().dom().contains(id)
                &&& final(self)@ == old(self)@.push(id)
                &&& occurrences(final(self)@, id) == 1
                &&& final(self).handles() == old(self).handles().push(handle)
                &&& final(self).sent() == old(self).sent().insert(id, Seq::empty())
                &&& final(self).issued() == old(self).issued() + 1
            },
            id is None ==> *final(self) == *old(self),
    {
        if self.next_id == u64::MAX {
            return None;
        }
        let id = self.next_id;
        proof {
            let ids = ids_of(self.clients@);
            if ids.contains(id) {
                let j = choose|j: int| 0 <= j < ids.len() && ids[j] == id;
                assert(self.clients@[j].id == id);
            }
            lemma_occurrences_absent(ids, id);
            assert(ids.push(id).drop_last() =~= ids);
        }
        let ghost old_clients = self.clients@;
        self.clients.push(Client { id, handle });
        self.next_id = id + 1;
        self.sent = Ghost(self.sent@.insert(id, Seq::empty()));
        assert(ids_of(self.clients@) =~= ids_of(old_clients).push(id));
        assert(handles_of(self.clients@) =~= handles_of(old_clients).push(handle));
        assert forall|x: u64| #[trigger]
            ids_of(self.clients@).contains(x) implies self.sent@.dom().contains(x) by {
            let j = choose|j: int| 0 <= j < self.clients@.len() && ids_of(self.clients@)[j] == x;
            if j < old_clients.len() {
                assert(ids_of(old_clients)[j] == x);
                assert(ids_of(old_clients).contains(x));
            }
        }
        Some(id)
    }

    /// The write handle of the client at position `index` of the broadcast
    /// order, to write a frame through; nothing else of the registry changes.
    pub fn handle_mut(&mut self, index: usize) -> (handle: &mut H)
        requires
            old(self).wf(),
            index < old(self)@.len(),
        ensures
            *handle == old(self).handles()[index as int],
            final(self).wf(),
            final(self)@ == old(self)@,
            final(self).handles() == old(self).handles().update(index as int, *final(handle)),
            final(self).sent() == old(self).sent(),
            final(self).issued() == old(self).issued(),
    {
        let ghost clients = self.clients@;
        let ghost i = index as int;
        assert forall|c: Client<H>| c.id == clients[i].id implies ids_of(
            #[trigger] clients.update(i, c),
        ) == ids_of(clients) by {
            assert(ids_of(clients.update(i, c)) =~= ids_of(clients));
        }
        &mut self.clients[index].handle
    }

    /// Ends a broadcast round in which `frame` was written to every
    /// registered client, `delivered` telling, position by position, whether
    /// the write succeeded. The clients whose write failed leave the
    /// registry, and their ids are returned in broadcast order; the others
    /// stay, in their order, with `frame` appended to their logs.
    pub fn complete_round(&mut self, frame: &[u8], delivered: &Vec<bool>) -> (dropped: Vec<u64>)
        requires
            old(self).wf(),
            delivered@.len() == old(self)@.len(),
        ensures
            final(self).wf(),
            final(self)@ == kept(old(self)@, delivered@),
            final(self).handles() == kept(old(self).handles(), delivered@),
            final(self).sent() == deliver(old(self).sent(), old(self)@, delivered@, frame@),
            final(self).issued() == old(self).issued(),
            dropped@ == kept(old(self)@, negated(delivered@)),
    {
        let ghost start = self.clients@;
        let ghost d = delivered@;
        let ghost nd = negated(d);
        let mut dropped: Vec<u64> = Vec::new();
        let mut i: usize = 0;
        let mut j: usize = 0;
        while j < delivered.len()
            invariant
                self.next_id == old(self).next_id,
                self.sent == old(self).sent,
                start == old(self).clients@,
                d == delivered@,
                nd == negated(d),
                j <= d.len() == start.len(),
                i == kept(start.take(j as int), d).len(),
                self.clients@ == kept(start.take(j as int), d) + start.skip(j as int),
                dropped@ == ids_of(kept(start.take(j as int), nd)),
            decreases d.len() - j,
        {
            let ghost before = kept(start.take(j as int), d);
            let ghost before_dropped = kept(start.take(j as int), nd);
            assert(start.take(j + 1).drop_last() =~= start.take(j as int));
            assert(start.take(j + 1).last() == start[j as int]);
            let remaining = self.clients.len();
            assert(remaining == i + start.len() - j);
            assert(self.clients@[i as int] == start[j as int]);
            if delivered[j] {
                i = i + 1;
                assert(kept(start.take(j + 1), d) == before.push(start[j as int]));
                assert(kept(start.take(j + 1), nd) == before_dropped);
            } else {
                let c = self.clients.remove(i);
                dropped.push(c.id);
                assert(kept(start.take(j + 1), d) == before);
                assert(kept(start.take(j + 1), nd) == before_dropped.push(start[j as int]));
                assert(ids_of(before_dropped.push(start[j as int])) =~= ids_of(before_dropped).push(
                    c.id,
                ));
            }
            assert(self.clients@ =~= kept(start.take(j + 1), d) + start.skip(j + 1));
            j = j + 1;
        }
        assert(start.take(j as int) =~= start);
        assert(self.clients@ =~= kept(start, d));
        proof {
            let id_fn = |c: Client<H>| c.id;
            let handle_fn = |c: Client<H>| c.handle;
            lemma_kept_map(start, d, id_fn);
            lemma_kept_map(start, nd, id_fn);
            lemma_kept_map(start, d, handle_fn);
            lemma_kept_no_duplicates(ids_of(start), d);
            assert forall|x: u64| #[trigger]
                ids_of(self.clients@).contains(x) implies self.sent@.dom().contains(x) by {
                lemma_kept_contains(ids_of(start), d, x);
                let k = choose|k: int| 0 <= k < start.len() && ids_of(start)[k] == x && d[k];
                assert(ids_of(start).contains(x));
            }
        }
        self.sent = Ghost(deliver(self.sent@, ids_of(start), d, frame@));
        dropped
    }

    /// Number of registered clients.
    pub fn len(&self) -> (n: usize)
        ensures
            n == self@.len(),
    {
        self.clients.len()
    }

    /// The ids of the registered clients, in broadcast order.
    pub fn ids(&self) -> (ids: Vec<u64>)
        ensures
            ids@ == self@,
    {
        let mut ids: Vec<u64> = Vec::new();
        let mut i: usize = 0;
        while i < self.clients.len()
            invariant
                i <= self.clients@.len(),
                ids@ =~= ids_of(self.clients@).take(i as int),
            decreases self.clients@.len() - i,
        {
            ids.push(self.clients[i].id);
            i = i + 1;
        }
        assert(ids@ =~= ids_of(self.clients@));
        ids
    }
}

} // verus!

use vstd::prelude::*;

use crate::backend::{try_send, SendError};
use crate::id::{spec_eq_target, IdView, ID};
use crate::service::{views, Error, Service, ServiceView};

verus! {

/// Whether the identity `i` is addressed by one of `targets`.
pub open spec fn addressed_by(i: IdView, targets: Seq<ID>) -> bool {
    exists|k: int| 0 <= k < targets.len() && spec_eq_target(i, #[trigger] targets[k]@)
}

/// Whether a delivery from `from` goes to the endpoint `s`.
/// With `explicit`, `list` holds the targets, and only endpoints that one of them
/// addresses are chosen, whatever their state. Without it, `list` holds the
/// exclusions, and every active endpoint other than the sender's own is chosen
/// unless one of them addresses it.
pub open spec fn chosen(from: IdView, list: Seq<ID>, explicit: bool, s: ServiceView) -> bool {
    match s.id {
        None => false,
        Some(i) => if explicit {
            addressed_by(i, list)
        } else {
            i != from && s.state is Active && !addressed_by(i, list)
        },
    }
}

/// The positions in `eps` of the endpoints that a delivery goes to, in order.
pub open spec fn chosen_positions(from: IdView, list: Seq<ID>, explicit: bool, eps: Seq<ServiceView>) -> Seq<int>
    decreases eps.len(),
{
    if eps.len() == 0 {
        Seq::empty()
    } else {
        let prev = chosen_positions(from, list, explicit, eps.drop_last());
        if chosen(from, list, explicit, eps.last()) {
            prev.push(eps.len() - 1)
        } else {
            prev
        }
    }
}

/// Every chosen position lies in `eps` and names a chosen endpoint, in increasing order.
pub proof fn lemma_chosen_positions(from: IdView, list: Seq<ID>, explicit: bool, eps: Seq<ServiceView>)
    ensures
        forall|k: int|
            0 <= k < chosen_positions(from, list, explicit, eps).len() ==> {
                let p = #[trigger] chosen_positions(from, list, explicit, eps)[k];
                &&& 0 <= p < eps.len()
                &&& chosen(from, list, explicit, eps[p])
            },
        chosen_positions(from, list, explicit, eps).len() <= eps.len(),
    decreases eps.len(),
{
    if eps.len() > 0 {
        lemma_chosen_positions(from, list, explicit, eps.drop_last());
    }
}

/// The numeric ids of the endpoints that a delivery goes to, in order.
pub open spec fn chosen_ids(from: IdView, list: Seq<ID>, explicit: bool, eps: Seq<ServiceView>) -> Seq<usize> {
    chosen_positions(from, list, explicit, eps).map_values(|p: int| eps[p].id->Some_0.id)
}

/// What a fan-out returns, given the numeric ids of the endpoints that were tried
/// and the outcome of each try: no endpoint is a failure of its own, otherwise the
/// last refused delivery decides, and with none refused it succeeded.
pub open spec fn settled<T>(ids: Seq<usize>, outcomes: Seq<Result<(), SendError<T>>>) -> Result<(), Error<T>> {
    if ids.len() == 0 {
        Err(Error::NotInitialized)
    } else {
        last_refusal(ids, outcomes)
    }
}

pub open spec fn last_refusal<T>(ids: Seq<usize>, outcomes: Seq<Result<(), SendError<T>>>) -> Result<(), Error<T>>
    decreases outcomes.len(),
{
    if outcomes.len() == 0 {
        Ok(())
    } else {
        match outcomes.last() {
            Err(e) => Err(Error::Send(ids[outcomes.len() - 1], e)),
            Ok(_) => last_refusal(ids, outcomes.drop_last()),
        }
    }
}

/// The result of a fan-out over the endpoints with numeric ids `ids`, given the
/// outcome of each delivery in the same order.
pub fn settle<T>(ids: &Vec<usize>, outcomes: Vec<Result<(), SendError<T>>>) -> (r: Result<(), Error<T>>)
    requires
        ids.len() == outcomes.len(),
    ensures
        r == settled(ids@, outcomes@),
{
    if ids.len() == 0 {
        return Err(Error::NotInitialized);
    }
    let mut rest = outcomes;
    while rest.len() > 0
        invariant
            ids.len() == outcomes.len(),
            rest.len() <= outcomes.len(),
            rest@ =~= outcomes@.subrange(0, rest.len() as int),
            last_refusal(ids@, outcomes@) == last_refusal(ids@, rest@),
        decreases rest.len(),
    {
        let ghost before = rest@;
        let last = rest.pop();
        proof {
            assert(rest@ == before.drop_last());
            assert(rest@ =~= outcomes@.subrange(0, rest.len() as int));
        }
        match last {
            Some(Err(e)) => {
                let n = rest.len();
                return Err(Error::Send(ids[n], e));
            },
            _ => {},
        }
    }
    Ok(())
}

/// Every endpoint that a delivery chooses appears among the chosen positions.
pub proof fn lemma_chosen_complete(from: IdView, list: Seq<ID>, explicit: bool, eps: Seq<ServiceView>, p: int)
    requires
        0 <= p < eps.len(),
        chosen(from, list, explicit, eps[p]),
    ensures
        chosen_positions(from, list, explicit, eps).contains(p),
    decreases eps.len(),
{
    if p < eps.len() - 1 {
        lemma_chosen_complete(from, list, explicit, eps.drop_last(), p);
        let prev = chosen_positions(from, list, explicit, eps.drop_last());
        let k = choose|k: int| 0 <= k < prev.len() && prev[k] == p;
        if chosen(from, list, explicit, eps.last()) {
            assert(prev.push(eps.len() - 1)[k] == p);
        }
    } else {
        assert(chosen_positions(from, list, explicit, eps).last() == p);
    }
}

/// A broadcast from `from` goes exactly to the active endpoints whose identity is
/// not `from`, one delivery each, in order: a position is tried if and only if its
/// endpoint is such, and each position is tried once.
pub proof fn lemma_broadcast_targets(from: IdView, eps: Seq<ServiceView>)
    ensures
        forall|p: int|
            0 <= p < eps.len() ==> (chosen_positions(from, Seq::empty(), false, eps).contains(p) <==> (
            eps[p].id is Some && eps[p].id != Some(from) && #[trigger] eps[p].state is Active)),
        forall|j: int, k: int|
            0 <= j < k < chosen_positions(from, Seq::empty(), false, eps).len() ==> #[trigger] chosen_positions(
                from,
                Seq::empty(),
                false,
                eps,
            )[j] < #[trigger] chosen_positions(from, Seq::empty(), false, eps)[k],
{
    lemma_chosen_positions(from, Seq::empty(), false, eps);
    lemma_chosen_increasing(from, Seq::empty(), false, eps);
    assert forall|p: int| 0 <= p < eps.len() implies (chosen_positions(from, Seq::empty(), false, eps).contains(p) <==> (
            eps[p].id is Some && eps[p].id != Some(from) && #[trigger] eps[p].state is Active)) by {
        if eps[p].id is Some && eps[p].id != Some(from) && eps[p].state is Active {
            lemma_chosen_complete(from, Seq::empty(), false, eps, p);
        }
    }
}

/// The chosen positions increase strictly.
pub proof fn lemma_chosen_increasing(from: IdView, list: Seq<ID>, explicit: bool, eps: Seq<ServiceView>)
    ensures
        forall|j: int, k: int|
            0 <= j < k < chosen_positions(from, list, explicit, eps).len() ==> #[trigger] chosen_positions(
                from,
                list,
                explicit,
                eps,
            )[j] < #[trigger] chosen_positions(from, list, explicit, eps)[k],
    decreases eps.len(),
{
    if eps.len() > 0 {
        lemma_chosen_increasing(from, list, explicit, eps.drop_last());
        lemma_chosen_positions(from, list, explicit, eps.drop_last());
    }
}

/// How a fan-out over `ids` ends: with no endpoint it fails as not initialized;
/// with one it gives that delivery's outcome; with any number it succeeds exactly
/// when every delivery did, and otherwise reports the last refused one.
pub proof fn lemma_settled<T>(ids: Seq<usize>, outcomes: Seq<Result<(), SendError<T>>>)
    requires
        ids.len() == outcomes.len(),
    ensures
        ids.len() == 0 ==> settled(ids, outcomes) == Err::<(), Error<T>>(Error::NotInitialized),
        ids.len() == 1 ==> settled(ids, outcomes) == match outcomes[0] {
            Ok(_) => Ok::<(), Error<T>>(()),
            Err(e) => Err(Error::Send(ids[0], e)),
        },
        ids.len() > 0 ==> (settled(ids, outcomes) is Ok <==> forall|k: int|
            0 <= k < outcomes.len() ==> #[trigger] outcomes[k] is Ok),
        ids.len() > 0 && settled(ids, outcomes) is Err ==> exists|k: int|
            0 <= k < outcomes.len() && #[trigger] outcomes[k] is Err && settled(ids, outcomes)
                == Err::<(), Error<T>>(Error::Send(ids[k], outcomes[k]->Err_0)) && forall|j: int|
                k < j < outcomes.len() ==> #[trigger] outcomes[j] is Ok,
{
    lemma_last_refusal(ids, outcomes);
    if ids.len() == 1 {
        assert(outcomes.last() == outcomes[0]);
        assert(last_refusal(ids, outcomes.drop_last()) == Ok::<(), Error<T>>(()));
    }
}

proof fn lemma_last_refusal<T>(ids: Seq<usize>, outcomes: Seq<Result<(), SendError<T>>>)
    requires
        outcomes.len() <= ids.len(),
    ensures
        last_refusal(ids, outcomes) is Ok <==> forall|k: int|
            0 <= k < outcomes.len() ==> #[trigger] outcomes[k] is Ok,
        last_refusal(ids, outcomes) is Err ==> exists|k: int|
            0 <= k < outcomes.len() && #[trigger] outcomes[k] is Err && last_refusal(ids, outcomes)
                == Err::<(), Error<T>>(Error::Send(ids[k], outcomes[k]->Err_0)) && forall|j: int|
                k < j < outcomes.len() ==> #[trigger] outcomes[j] is Ok,
    decreases outcomes.len(),
{
    if outcomes.len() > 0 {
        let rest = outcomes.drop_last();
        lemma_last_refusal(ids, rest);
        let n = outcomes.len() - 1;
        if outcomes.last() is Ok {
            assert forall|k: int| 0 <= k < rest.len() implies #[trigger] outcomes[k] == rest[k] by {}
            if last_refusal(ids, rest) is Err {
                let k = choose|k: int|
                    0 <= k < rest.len() && #[trigger] rest[k] is Err && last_refusal(ids, rest)
                        == Err::<(), Error<T>>(Error::Send(ids[k], rest[k]->Err_0)) && forall|j: int|
                        k < j < rest.len() ==> #[trigger] rest[j] is Ok;
                assert(outcomes[k] == rest[k]);
            }
        } else {
            assert(outcomes[n] is Err);
        }
    }
}

/// A delivery to an explicit but empty list of targets writes into no channel and
/// fails as not initialized, whatever the endpoints and their states.
pub proof fn lemma_send_to_nobody_delivers_nothing<T: Clone>(
    from: IdView,
    before: Seq<Service<T>>,
    after: Seq<Service<T>>,
    event: T,
    r: Result<(), Error<T>>,
)
    requires
        fanned_out(from, Seq::empty(), true, before, after, event, r),
    ensures
        r == Err::<(), Error<T>>(Error::NotInitialized),
        forall|q: int| 0 <= q < before.len() ==> (#[trigger] after[q]).sent() == before[q].sent(),
{
    let pos = chosen_positions(from, Seq::empty(), true, views(before));
    lemma_send_to_nobody(from, views(before), last_outcomes(pos, after));
    lemma_send_to_nobody_positions(from, views(before));
}

proof fn lemma_send_to_nobody_positions(from: IdView, eps: Seq<ServiceView>)
    ensures
        chosen_positions(from, Seq::empty(), true, eps).len() == 0,
    decreases eps.len(),
{
    if eps.len() > 0 {
        lemma_send_to_nobody_positions(from, eps.drop_last());
    }
}

/// A delivery to an explicit but empty list of targets reaches nobody, so it fails
/// as not initialized, whatever the endpoints and their states.
pub proof fn lemma_send_to_nobody<T>(from: IdView, eps: Seq<ServiceView>, outcomes: Seq<Result<(), SendError<T>>>)
    ensures
        chosen_ids(from, Seq::empty(), true, eps).len() == 0,
        settled(chosen_ids(from, Seq::empty(), true, eps), outcomes) == Err::<(), Error<T>>(Error::NotInitialized),
    decreases eps.len(),
{
    if eps.len() > 0 {
        lemma_send_to_nobody(from, eps.drop_last(), outcomes);
    }
}

/// The outcome of the newest delivery into each endpoint at `positions`, in order.
pub open spec fn last_outcomes<T>(positions: Seq<int>, eps: Seq<Service<T>>) -> Seq<Result<(), SendError<T>>> {
    Seq::new(positions.len(), |k: int| eps[positions[k]].sent().last().outcome)
}

/// What a fan-out from `from` did to the endpoints, from `before` to `after`, and
/// what it returned: exactly the chosen endpoints (see `chosen`) received one
/// delivery each, of `event` or a clone of it, every other endpoint and every state
/// is as it was, and the result is what those deliveries' outcomes settle to.
pub open spec fn fanned_out<T: Clone>(
    from: IdView,
    list: Seq<ID>,
    explicit: bool,
    before: Seq<Service<T>>,
    after: Seq<Service<T>>,
    event: T,
    r: Result<(), Error<T>>,
) -> bool {
    let pos = chosen_positions(from, list, explicit, views(before));
    &&& after.len() == before.len()
    &&& views(after) == views(before)
    &&& forall|q: int| 0 <= q < before.len() ==> (#[trigger] after[q]).takes() == before[q].takes()
    &&& forall|q: int| 0 <= q < before.len() && !pos.contains(q) ==> (#[trigger] after[q]).sent() == before[q].sent()
    &&& forall|k: int|
        0 <= k < pos.len() ==> {
            let s = #[trigger] after[pos[k]].sent();
            &&& s.len() == before[pos[k]].sent().len() + 1
            &&& s.drop_last() == before[pos[k]].sent()
            &&& cloned(event, s.last().message)
        }
    &&& r == settled(chosen_ids(from, list, explicit, views(before)), last_outcomes(pos, after))
}

/// Whether a broadcast from `from` goes to the endpoint `s`.
pub open spec fn broadcast_match(from: IdView, s: ServiceView) -> bool {
    s.id is Some && s.id != Some(from) && s.state is Active
}

/// A broadcast from `from` delivers `event`, or a clone of it, once to each active
/// endpoint other than the sender's own and to no other endpoint. With no such
/// endpoint it fails as not initialized; it succeeds only if every delivery was
/// accepted; and a failure names an endpoint whose delivery was refused, with the
/// error of that refusal.
pub proof fn lemma_broadcast_deliveries<T: Clone>(
    from: IdView,
    before: Seq<Service<T>>,
    after: Seq<Service<T>>,
    event: T,
    r: Result<(), Error<T>>,
)
    requires
        fanned_out(from, Seq::empty(), false, before, after, event, r),
    ensures
        forall|q: int|
            0 <= q < before.len() && broadcast_match(from, #[trigger] before[q]@) ==> {
                let s = after[q].sent();
                &&& s.len() == before[q].sent().len() + 1
                &&& s.drop_last() == before[q].sent()
                &&& cloned(event, s.last().message)
            },
        forall|q: int|
            0 <= q < before.len() && !broadcast_match(from, #[trigger] before[q]@) ==> after[q].sent() == before[q].sent(),
        (forall|q: int| 0 <= q < before.len() ==> !broadcast_match(from, #[trigger] before[q]@)) ==> r == Err::<(), Error<T>>(
            Error::NotInitialized,
        ),
        r is Ok ==> forall|q: int|
            0 <= q < before.len() && broadcast_match(from, #[trigger] before[q]@) ==> after[q].sent().last().outcome is Ok,
        r matches Err(Error::Send(n, e)) ==> exists|q: int|
            0 <= q < before.len() && broadcast_match(from, #[trigger] before[q]@) && before[q]@.id->Some_0.id == n
                && after[q].sent().last().outcome == Err::<(), SendError<T>>(e),
{
    let eps = views(before);
    let list = Seq::<ID>::empty();
    let pos = chosen_positions(from, list, false, eps);
    let ids = chosen_ids(from, list, false, eps);
    let outs = last_outcomes(pos, after);
    lemma_broadcast_targets(from, eps);
    lemma_chosen_positions(from, list, false, eps);
    lemma_settled(ids, outs);
    assert forall|q: int| 0 <= q < before.len() implies (pos.contains(q) <==> broadcast_match(from, #[trigger] before[q]@)) by {
        assert(eps[q] == before[q]@);
    }
    assert forall|q: int|
        0 <= q < before.len() && broadcast_match(from, #[trigger] before[q]@) implies {
            let s = after[q].sent();
            &&& s.len() == before[q].sent().len() + 1
            &&& s.drop_last() == before[q].sent()
            &&& cloned(event, s.last().message)
        } by {
        let k = choose|k: int| 0 <= k < pos.len() && pos[k] == q;
        assert(after[pos[k]].sent() == after[q].sent());
    }
    if forall|q: int| 0 <= q < before.len() ==> !broadcast_match(from, #[trigger] before[q]@) {
        if pos.len() > 0 {
            let p = pos[0];
            assert(pos.contains(p));
            assert(!broadcast_match(from, before[p]@));
        }
    }
    if r is Ok {
        assert forall|q: int|
            0 <= q < before.len() && broadcast_match(from, #[trigger] before[q]@) implies after[q].sent().last().outcome is Ok by {
            let k = choose|k: int| 0 <= k < pos.len() && pos[k] == q;
            assert(outs[k] is Ok);
        }
    }
    if r matches Err(Error::Send(n, e)) {
        let k = choose|k: int|
            0 <= k < outs.len() && #[trigger] outs[k] is Err && settled(ids, outs) == Err::<(), Error<T>>(
                Error::Send(ids[k], outs[k]->Err_0),
            ) && forall|j: int| k < j < outs.len() ==> #[trigger] outs[j] is Ok;
        let q = pos[k];
        assert(pos.contains(q));
        assert(eps[q] == before[q]@);
        assert(broadcast_match(from, before[q]@));
    }
}

/// A publisher: it delivers events on behalf of the endpoint it is named after.
pub struct EventSender {
    id: ID,
}

impl View for EventSender {
    type V = IdView;

    closed spec fn view(&self) -> IdView {
        self.id@
    }
}

/// Whether some entry of `targets` addresses `i`.
fn any_addresses(i: &ID, targets: &Vec<ID>) -> (r: bool)
    ensures
        r == addressed_by(i@, targets@),
{
    let mut k: usize = 0;
    while k < targets.len()
        invariant
            k <= targets.len(),
            forall|j: int| 0 <= j < k ==> !spec_eq_target(i@, #[trigger] targets@[j]@),
        decreases targets.len() - k,
    {
        if i.eq_target(&targets[k]) {
            return true;
        }
        k = k + 1;
    }
    false
}

impl EventSender {
    pub fn new(id: ID) -> (r: EventSender)
        ensures
            r@ == id@,
    {
        EventSender { id }
    }

    pub fn id(&self) -> (r: ID)
        ensures
            r@ == self@,
    {
        self.id.clone()
    }

    fn chooses<T>(&self, list: &Vec<ID>, explicit: bool, s: &Service<T>) -> (r: bool)
        ensures
            r == chosen(self@, list@, explicit, s@),
    {
        match s.id() {
            None => false,
            Some(i) => if explicit {
                any_addresses(i, list)
            } else {
                !i.same(&self.id) && s.state().is_active() && !any_addresses(i, list)
            },
        }
    }

    /// The positions in `endpoints` of the endpoints that a delivery goes to.
    pub fn matches_of<T>(&self, list: &Vec<ID>, explicit: bool, endpoints: &Vec<Service<T>>) -> (r: Vec<usize>)
        ensures
            r@.len() == chosen_positions(self@, list@, explicit, views(endpoints@)).len(),
            forall|k: int|
                0 <= k < r@.len() ==> r@[k] as int == #[trigger] chosen_positions(
                    self@,
                    list@,
                    explicit,
                    views(endpoints@),
                )[k],
    {
        let mut r: Vec<usize> = Vec::new();
        let mut i: usize = 0;
        while i < endpoints.len()
            invariant
                i <= endpoints.len(),
                r@.len() == chosen_positions(self@, list@, explicit, views(endpoints@.subrange(0, i as int))).len(),
                forall|k: int|
                    0 <= k < r@.len() ==> r@[k] as int == #[trigger] chosen_positions(
                        self@,
                        list@,
                        explicit,
                        views(endpoints@.subrange(0, i as int)),
                    )[k],
            decreases endpoints.len() - i,
        {
            let ghost prefix = views(endpoints@.subrange(0, i as int));
            let ghost next = views(endpoints@.subrange(0, i + 1));
            proof {
                assert(next.drop_last() =~= prefix);
                assert(next.last() == endpoints@[i as int]@);
            }
            if self.chooses(list, explicit, &endpoints[i]) {
                r.push(i);
            }
            i = i + 1;
        }
        proof {
            assert(endpoints@.subrange(0, endpoints@.len() as int) =~= endpoints@);
        }
        r
    }

    /// Tries, without waiting, one delivery to every endpoint that `list` and
    /// `explicit` choose (see `chosen`), in order, whatever the earlier ones gave.
    fn deliver<T: Clone>(&self, list: &Vec<ID>, explicit: bool, endpoints: &mut Vec<Service<T>>, event: T) -> (r: Result<(), Error<T>>)
        ensures
            fanned_out(self@, list@, explicit, old(endpoints)@, final(endpoints)@, event, r),
    {
        let ghost before = endpoints@;
        let ghost eps = views(before);
        let ghost pos = chosen_positions(self@, list@, explicit, eps);
        let ghost ids_spec = chosen_ids(self@, list@, explicit, eps);
        proof {
            lemma_chosen_positions(self@, list@, explicit, eps);
            lemma_chosen_increasing(self@, list@, explicit, eps);
            assert(eps.len() == before.len());
        }
        let picked = self.matches_of(list, explicit, endpoints);
        let mut ids: Vec<usize> = Vec::new();
        let mut outcomes: Vec<Result<(), SendError<T>>> = Vec::new();
        let mut k: usize = 0;
        while k < picked.len()
            invariant
                k <= picked@.len(),
                picked@.len() == pos.len(),
                ids_spec == chosen_ids(self@, list@, explicit, eps),
                eps == views(before),
                eps.len() == before.len(),
                pos == chosen_positions(self@, list@, explicit, eps),
                forall|j: int| 0 <= j < picked@.len() ==> picked@[j] as int == #[trigger] pos[j],
                forall|j: int|
                    0 <= j < pos.len() ==> {
                        let p = #[trigger] pos[j];
                        &&& 0 <= p < eps.len()
                        &&& chosen(self@, list@, explicit, eps[p])
                    },
                forall|a: int, b: int| 0 <= a < b < pos.len() ==> #[trigger] pos[a] < #[trigger] pos[b],
                endpoints@.len() == before.len(),
                views(endpoints@) == eps,
                forall|q: int| 0 <= q < before.len() ==> (#[trigger] endpoints@[q]).takes() == before[q].takes(),
                forall|q: int|
                    0 <= q < before.len() && (forall|j: int| 0 <= j < k ==> pos[j] != q) ==> (#[trigger] endpoints@[q]).sent()
                        == before[q].sent(),
                forall|j: int|
                    0 <= j < k ==> {
                        let s = #[trigger] endpoints@[pos[j]].sent();
                        &&& s.len() == before[pos[j]].sent().len() + 1
                        &&& s.drop_last() == before[pos[j]].sent()
                        &&& cloned(event, s.last().message)
                        &&& s.last().outcome == outcomes@[j]
                    },
                ids@ =~= ids_spec.subrange(0, k as int),
                outcomes@.len() == k,
            decreases picked@.len() - k,
        {
            let p = picked[k];
            let ghost prev = endpoints@;
            proof {
                assert(pos[k as int] == p as int);
                assert(eps[p as int] == endpoints@[p as int]@);
            }
            let n = match endpoints[p].id() {
                Some(i) => i.id(),
                None => 0,
            };
            let message = event.clone();
            let ghost m = message;
            let o = endpoints[p].deliver(message);
            let ghost o_spec = o;
            ids.push(n);
            outcomes.push(o);
            proof {
                assert(views(endpoints@) =~= views(prev));
                assert forall|q: int| 0 <= q < before.len() && q != p implies endpoints@[q] == prev[q] by {}
                assert(endpoints@[p as int].sent().drop_last() =~= prev[p as int].sent());
                assert(cloned(event, m));
                assert forall|j: int| 0 <= j < k + 1 implies {
                    let s = #[trigger] endpoints@[pos[j]].sent();
                    &&& s.len() == before[pos[j]].sent().len() + 1
                    &&& s.drop_last() == before[pos[j]].sent()
                    &&& cloned(event, s.last().message)
                    &&& s.last().outcome == outcomes@[j]
                } by {
                    if j < k {
                        assert(pos[j] < pos[k as int]);
                        assert(endpoints@[pos[j]] == prev[pos[j]]);
                    }
                }
                assert forall|q: int|
                    0 <= q < before.len() && (forall|j: int| 0 <= j < k + 1 ==> pos[j] != q) implies (#[trigger] endpoints@[q]).sent()
                        == before[q].sent() by {
                    assert(pos[k as int] != q);
                    assert(endpoints@[q] == prev[q]);
                }
                assert(ids@ =~= ids_spec.subrange(0, k + 1));
            }
            k = k + 1;
        }
        proof {
            assert(ids@ =~= ids_spec);
            assert(outcomes@ =~= last_outcomes(pos, endpoints@));
            assert forall|q: int| 0 <= q < before.len() && !pos.contains(q) implies (#[trigger] endpoints@[q]).sent() == before[q].sent() by {
                assert forall|j: int| 0 <= j < pos.len() implies pos[j] != q by {
                    if pos[j] == q {
                        assert(pos.contains(q));
                    }
                }
            }
        }
        settle(&ids, outcomes)
    }

    /// Delivers `event` to every active endpoint of `endpoints` other than the
    /// sender's own.
    pub fn send<T: Clone>(&self, endpoints: &mut Vec<Service<T>>, event: T) -> (r: Result<(), Error<T>>)
        ensures
            fanned_out(self@, Seq::empty(), false, old(endpoints)@, final(endpoints)@, event, r),
    {
        let none: Vec<ID> = Vec::new();
        proof {
            assert(none@ =~= Seq::<ID>::empty());
        }
        self.deliver(&none, false, endpoints, event)
    }

    /// Delivers `event` as `send` does, leaving out every endpoint that an entry
    /// of `excluded` addresses.
    pub fn send_filtered<T: Clone>(&self, excluded: &Vec<ID>, endpoints: &mut Vec<Service<T>>, event: T) -> (r: Result<(), Error<T>>)
        ensures
            fanned_out(self@, excluded@, false, old(endpoints)@, final(endpoints)@, event, r),
    {
        self.deliver(excluded, false, endpoints, event)
    }

    /// Delivers `event` to every endpoint of `endpoints` that an entry of
    /// `targets` addresses, active or not, the sender's own included.
    pub fn send_to<T: Clone>(&self, targets: &Vec<ID>, endpoints: &mut Vec<Service<T>>, event: T) -> (r: Result<(), Error<T>>)
        ensures
            fanned_out(self@, targets@, true, old(endpoints)@, final(endpoints)@, event, r),
    {
        self.deliver(targets, true, endpoints, event)
    }
}

} // verus!

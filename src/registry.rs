//! The subscription registry: (connection, channel) bindings, each with a
//! unique id, plus the ids staged for removal after a failed write.
//! Broadcast reads it; the janitor's `reconcile` is what sweeps the staged ids.
use vstd::prelude::*;
use crate::codec::{bytes_equal, copy_prefix};

verus! {

/// One (connection, channel) binding.
pub struct Binding {
    pub id: u128,
    pub conn: u64,
    pub channel: Vec<u8>,
}

/// A write owed to a connection, for the binding `id`.
#[derive(Debug, Clone, Copy, PartialEq, Eq, Structural)]
pub struct Delivery {
    pub id: u128,
    pub conn: u64,
}

pub struct BindingModel {
    pub id: u128,
    pub conn: u64,
    pub channel: Seq<u8>,
}

pub struct RegistryModel {
    pub bindings: Seq<BindingModel>,
    pub pending: Set<u128>,
}

pub open spec fn model_of(b: Binding) -> BindingModel {
    BindingModel { id: b.id, conn: b.conn, channel: b.channel@ }
}

pub open spec fn delivery_of(b: BindingModel) -> Delivery {
    Delivery { id: b.id, conn: b.conn }
}

pub open spec fn bound_id(bs: Seq<BindingModel>, id: u128) -> bool {
    exists|i: int| 0 <= i < bs.len() && (#[trigger] bs[i]).id == id
}

pub open spec fn bound_to(bs: Seq<BindingModel>, conn: u64, channel: Seq<u8>) -> bool {
    exists|i: int| 0 <= i < bs.len() && (#[trigger] bs[i]).conn == conn && bs[i].channel == channel
}

/// Ids are unique, a connection is bound to a channel at most once, and no
/// channel is empty.
pub open spec fn bindings_wf(bs: Seq<BindingModel>) -> bool {
    &&& forall|i: int, j: int| 0 <= i < j < bs.len() ==> (#[trigger] bs[i]).id != (#[trigger] bs[j]).id
    &&& forall|i: int, j: int|
        0 <= i < j < bs.len() ==> !((#[trigger] bs[i]).conn == (#[trigger] bs[j]).conn
            && bs[i].channel == bs[j].channel)
    &&& forall|i: int| 0 <= i < bs.len() ==> (#[trigger] bs[i]).channel.len() > 0
}

/// Well-formed bindings, and only bound ids staged for removal.
pub open spec fn model_wf(m: RegistryModel) -> bool {
    &&& bindings_wf(m.bindings)
    &&& forall|id: u128| #[trigger] m.pending.contains(id) ==> bound_id(m.bindings, id)
}

/// The deliveries a broadcast on `c` owes: every binding on `c` that is not
/// staged for removal, in registry order.
pub open spec fn deliveries_of(bs: Seq<BindingModel>, pending: Set<u128>, c: Seq<u8>) -> Seq<
    Delivery,
>
    decreases bs.len(),
{
    if bs.len() == 0 {
        Seq::empty()
    } else {
        let rest = deliveries_of(bs.drop_last(), pending, c);
        let b = bs.last();
        if b.channel == c && !pending.contains(b.id) {
            rest.push(delivery_of(b))
        } else {
            rest
        }
    }
}

pub open spec fn targets_of(m: RegistryModel, c: Seq<u8>) -> Seq<Delivery> {
    deliveries_of(m.bindings, m.pending, c)
}

/// The bindings whose id is not staged.
pub open spec fn retained(bs: Seq<BindingModel>, pending: Set<u128>) -> Seq<BindingModel>
    decreases bs.len(),
{
    if bs.len() == 0 {
        Seq::empty()
    } else {
        let rest = retained(bs.drop_last(), pending);
        if pending.contains(bs.last().id) {
            rest
        } else {
            rest.push(bs.last())
        }
    }
}

pub open spec fn reconciled(m: RegistryModel) -> RegistryModel {
    RegistryModel { bindings: retained(m.bindings, m.pending), pending: Set::empty() }
}

/// The bindings of every connection but `conn`.
pub open spec fn without_conn(bs: Seq<BindingModel>, conn: u64) -> Seq<BindingModel>
    decreases bs.len(),
{
    if bs.len() == 0 {
        Seq::empty()
    } else {
        let rest = without_conn(bs.drop_last(), conn);
        if bs.last().conn == conn {
            rest
        } else {
            rest.push(bs.last())
        }
    }
}

pub open spec fn departed(m: RegistryModel, conn: u64) -> RegistryModel {
    let bs = without_conn(m.bindings, conn);
    RegistryModel { bindings: bs, pending: Set::new(|id: u128| m.pending.contains(id) && bound_id(bs, id)) }
}

/// The ids whose write failed, among those still bound.
pub open spec fn failed_ids(bs: Seq<BindingModel>, sent: Seq<Delivery>, ok: Seq<bool>) -> Set<u128> {
    Set::new(
        |id: u128|
            bound_id(bs, id) && exists|i: int| 0 <= i < sent.len() && (#[trigger] sent[i]).id == id && !ok[i],
    )
}

pub open spec fn after_outcomes(m: RegistryModel, sent: Seq<Delivery>, ok: Seq<bool>) -> RegistryModel {
    RegistryModel { bindings: m.bindings, pending: m.pending.union(failed_ids(m.bindings, sent, ok)) }
}

/// The byte strings held by a list of channel names.
pub open spec fn channel_views(cs: Seq<Vec<u8>>) -> Seq<Seq<u8>> {
    cs.map_values(|c: Vec<u8>| c@)
}

/// The channels a subscription adds for `conn`, in order: each non-empty
/// name that is neither already bound to the connection nor named earlier.
pub open spec fn chosen_channels(bs: Seq<BindingModel>, conn: u64, cs: Seq<Seq<u8>>) -> Seq<Seq<u8>>
    decreases cs.len(),
{
    if cs.len() == 0 {
        Seq::empty()
    } else {
        let prev = chosen_channels(bs, conn, cs.drop_last());
        let c = cs.last();
        if c.len() == 0 || prev.contains(c) || bound_to(bs, conn, c) {
            prev
        } else {
            prev.push(c)
        }
    }
}

/// `now` is `start` followed by one binding of `conn` per name in `added`.
pub open spec fn extends_with(
    start: Seq<BindingModel>,
    now: Seq<BindingModel>,
    conn: u64,
    added: Seq<Seq<u8>>,
) -> bool {
    &&& now.len() == start.len() + added.len()
    &&& now.subrange(0, start.len() as int) == start
    &&& forall|k: int|
        0 <= k < added.len() ==> (#[trigger] now[start.len() + k]).conn == conn && now[start.len()
            + k].channel == added[k]
}

/// The bindings after subscribing `conn` to `cs`, the i-th name under
/// `ids[i]`, one name after the other as `Registry::bind` does; `None` when
/// some name that would be bound comes with an id that is already bound.
pub open spec fn subscribe_result(
    bs: Seq<BindingModel>,
    conn: u64,
    cs: Seq<Seq<u8>>,
    ids: Seq<u128>,
) -> Option<Seq<BindingModel>>
    decreases cs.len(),
{
    if cs.len() == 0 || ids.len() == 0 {
        Some(bs)
    } else {
        match subscribe_result(bs, conn, cs.drop_last(), ids.drop_last()) {
            None => None,
            Some(now) => {
                let c = cs.last();
                if c.len() == 0 || bound_to(now, conn, c) {
                    Some(now)
                } else if bound_id(now, ids.last()) {
                    None
                } else {
                    Some(now.push(BindingModel { id: ids.last(), conn, channel: c }))
                }
            },
        }
    }
}

#[derive(Debug, Clone, Copy, PartialEq, Eq, Structural)]
pub enum RegistryError {
    /// The id is already bound.
    IdInUse,
    /// Not one id per channel name.
    IdCountMismatch,
}

/// Relies on uuid::Uuid::new_v4, read back with Uuid::as_u128: a random
/// version-4 UUID, so the version nibble is 4 and the variant bits are 10.
#[verifier::external_body]
fn fresh_id() -> (r: u128)
    ensures
        (r >> 76u128) & 0xfu128 == 4,
        (r >> 62u128) & 0x3u128 == 2,
{
    uuid::Uuid::new_v4().as_u128()
}

/// How many fresh ids a subscription draws for one channel before it gives up.
pub const ID_ATTEMPTS: usize = 3;

pub struct Registry {
    bindings: Vec<Binding>,
    pending: Vec<u128>,
}

impl View for Registry {
    type V = RegistryModel;

    closed spec fn view(&self) -> RegistryModel {
        RegistryModel {
            bindings: self.bindings@.map_values(|b: Binding| model_of(b)),
            pending: Set::new(|id: u128| self.pending@.contains(id)),
        }
    }
}

impl Registry {
    pub open spec fn wf(&self) -> bool {
        model_wf(self@)
    }

    pub fn new() -> (r: Registry)
        ensures
            r.wf(),
            r@.bindings == Seq::<BindingModel>::empty(),
            r@.pending == Set::<u128>::empty(),
    {
        let r = Registry { bindings: Vec::new(), pending: Vec::new() };
        assert(r@.bindings =~= Seq::<BindingModel>::empty());
        assert(r@.pending =~= Set::<u128>::empty());
        r
    }

    /// The number of bindings, staged ones included.
    pub fn len(&self) -> (r: usize)
        ensures
            r == self@.bindings.len(),
    {
        self.bindings.len()
    }

    /// Whether the id is staged for removal.
    pub fn is_pending(&self, id: u128) -> (r: bool)
        ensures
            r == self@.pending.contains(id),
    {
        let mut i: usize = 0;
        while i < self.pending.len()
            invariant
                i <= self.pending@.len(),
                forall|k: int| 0 <= k < i ==> self.pending@[k] != id,
            decreases self.pending@.len() - i,
        {
            if self.pending[i] == id {
                return true;
            }
            i = i + 1;
        }
        false
    }

    /// Whether some binding has the id.
    pub fn id_in_use(&self, id: u128) -> (r: bool)
        ensures
            r == bound_id(self@.bindings, id),
    {
        let mut i: usize = 0;
        while i < self.bindings.len()
            invariant
                i <= self.bindings@.len(),
                forall|k: int| 0 <= k < i ==> self@.bindings[k].id != id,
            decreases self.bindings@.len() - i,
        {
            if self.bindings[i].id == id {
                assert(self@.bindings[i as int].id == id);
                return true;
            }
            i = i + 1;
        }
        false
    }

    /// Whether the connection is bound to the channel.
    pub fn is_bound(&self, conn: u64, channel: &[u8]) -> (r: bool)
        ensures
            r == bound_to(self@.bindings, conn, channel@),
    {
        let mut i: usize = 0;
        while i < self.bindings.len()
            invariant
                i <= self.bindings@.len(),
                forall|k: int|
                    0 <= k < i ==> !((#[trigger] self@.bindings[k]).conn == conn
                        && self@.bindings[k].channel == channel@),
            decreases self.bindings@.len() - i,
        {
            if self.bindings[i].conn == conn && bytes_equal(self.bindings[i].channel.as_slice(), channel) {
                assert(self@.bindings[i as int].conn == conn);
                return true;
            }
            i = i + 1;
        }
        false
    }

    /// Binds `conn` to `channel` under `id`. An empty channel, or one the
    /// connection is already bound to, is skipped (`Ok(false)`); an id that
    /// is already bound is refused. Nothing changes unless `Ok(true)`.
    pub fn bind(&mut self, id: u128, conn: u64, channel: &[u8]) -> (r: Result<bool, RegistryError>)
        requires
            old(self).wf(),
        ensures
            final(self).wf(),
            channel@.len() == 0 || bound_to(old(self)@.bindings, conn, channel@) ==> r == Ok::<
                bool,
                RegistryError,
            >(false),
            channel@.len() > 0 && !bound_to(old(self)@.bindings, conn, channel@) && bound_id(
                old(self)@.bindings,
                id,
            ) ==> r == Err::<bool, RegistryError>(RegistryError::IdInUse),
            r == Ok::<bool, RegistryError>(true) ==> final(self)@ == (RegistryModel {
                bindings: old(self)@.bindings.push(BindingModel { id, conn, channel: channel@ }),
                pending: old(self)@.pending,
            }),
            r != Ok::<bool, RegistryError>(true) ==> final(self)@ == old(self)@,
            r is Err || r == Ok::<bool, RegistryError>(true) || r == Ok::<bool, RegistryError>(false),
            channel@.len() > 0 && !bound_to(old(self)@.bindings, conn, channel@) && !bound_id(
                old(self)@.bindings,
                id,
            ) ==> r == Ok::<bool, RegistryError>(true),
    {
        if channel.len() == 0 || self.is_bound(conn, channel) {
            return Ok(false);
        }
        if self.id_in_use(id) {
            return Err(RegistryError::IdInUse);
        }
        let ghost before = self@;
        let copied = copy_prefix(channel, channel.len());
        assert(copied@ =~= channel@);
        self.bindings.push(Binding { id, conn, channel: copied });
        assert(self@.bindings =~= before.bindings.push(BindingModel { id, conn, channel: channel@ }));
        assert(self@.pending =~= before.pending);
        proof {
            let bs = self@.bindings;
            assert forall|id2: u128| #[trigger] self@.pending.contains(id2) implies bound_id(bs, id2) by {
                let i = choose|i: int| 0 <= i < before.bindings.len() && (#[trigger] before.bindings[i]).id == id2;
                assert(bs[i] == before.bindings[i]);
            }
        }
        Ok(true)
    }

    /// Subscribes `conn` to the named channels, the i-th under `ids[i]`, all
    /// or none: on an error nothing changes.
    pub fn subscribe_with_ids(&mut self, conn: u64, channels: &Vec<Vec<u8>>, ids: &Vec<u128>) -> (r:
        Result<(), RegistryError>)
        requires
            old(self).wf(),
        ensures
            final(self).wf(),
            final(self)@.pending == old(self)@.pending,
            ids@.len() != channels@.len() ==> r == Err::<(), RegistryError>(
                RegistryError::IdCountMismatch,
            ),
            ids@.len() == channels@.len() ==> match subscribe_result(
                old(self)@.bindings,
                conn,
                channel_views(channels@),
                ids@,
            ) {
                Some(bs) => r is Ok && final(self)@.bindings == bs,
                None => r == Err::<(), RegistryError>(RegistryError::IdInUse),
            },
            r is Err ==> final(self)@ == old(self)@,
    {
        if ids.len() != channels.len() {
            return Err(RegistryError::IdCountMismatch);
        }
        let ghost start = self@;
        let ghost cs = channel_views(channels@);
        let start_len = self.bindings.len();
        let mut i: usize = 0;
        assert(cs.subrange(0, 0) =~= Seq::<Seq<u8>>::empty());
        while i < channels.len()
            invariant
                self.wf(),
                i <= channels@.len() == ids@.len(),
                cs == channel_views(channels@),
                start == old(self)@,
                model_wf(start),
                start_len == start.bindings.len(),
                self@.pending == start.pending,
                subscribe_result(start.bindings, conn, cs.subrange(0, i as int), ids@.subrange(0, i as int))
                    == Some(self@.bindings),
                self@.bindings.len() >= start.bindings.len(),
                self@.bindings.subrange(0, start.bindings.len() as int) == start.bindings,
            decreases channels@.len() - i,
        {
            let ghost now = self@.bindings;
            assert(cs.subrange(0, i + 1).drop_last() =~= cs.subrange(0, i as int));
            assert(ids@.subrange(0, i + 1).drop_last() =~= ids@.subrange(0, i as int));
            assert(cs.subrange(0, i + 1).last() == channels@[i as int]@);
            match self.bind(ids[i], conn, channels[i].as_slice()) {
                Ok(_) => {},
                Err(e) => {
                    proof {
                        lemma_subscribe_none_propagates(start.bindings, conn, cs, ids@, i + 1);
                    }
                    self.bindings.truncate(start_len);
                    assert(self@.bindings =~= start.bindings);
                    return Err(e);
                },
            }
            assert(self@.bindings.subrange(0, start.bindings.len() as int) =~= start.bindings) by {
                assert forall|k: int| 0 <= k < start.bindings.len() implies self@.bindings[k]
                    == start.bindings[k] by {
                    assert(now.subrange(0, start.bindings.len() as int)[k] == now[k]);
                    if self@.bindings.len() > now.len() {
                        assert(self@.bindings[k] == now[k]);
                    }
                }
            }
            i = i + 1;
        }
        assert(cs.subrange(0, i as int) =~= cs);
        assert(ids@.subrange(0, i as int) =~= ids@);
        Ok(())
    }

    /// Subscribes `conn` to the named channels under freshly drawn ids, all or
    /// none. `false`, with nothing changed, only when every draw hit an id
    /// already bound.
    pub fn subscribe(&mut self, conn: u64, channels: &Vec<Vec<u8>>) -> (r: bool)
        requires
            old(self).wf(),
        ensures
            final(self).wf(),
            final(self)@.pending == old(self)@.pending,
            r ==> exists|ids: Seq<u128>|
                ids.len() == channels@.len() && subscribe_result(
                    old(self)@.bindings,
                    conn,
                    channel_views(channels@),
                    ids,
                ) == Some(final(self)@.bindings),
            r ==> extends_with(
                old(self)@.bindings,
                final(self)@.bindings,
                conn,
                chosen_channels(old(self)@.bindings, conn, channel_views(channels@)),
            ),
            chosen_channels(old(self)@.bindings, conn, channel_views(channels@)).len() == 0 ==> r
                && final(self)@ == old(self)@,
            old(self)@.bindings.len() == 0 && chosen_channels(
                old(self)@.bindings,
                conn,
                channel_views(channels@),
            ).len() == 1 ==> r,
            !r ==> final(self)@ == old(self)@,
    {
        let ghost sure = chosen_channels(old(self)@.bindings, conn, channel_views(channels@)).len()
            == 0 || (old(self)@.bindings.len() == 0 && chosen_channels(
            old(self)@.bindings,
            conn,
            channel_views(channels@),
        ).len() <= 1);
        let mut attempt: usize = 0;
        while attempt < ID_ATTEMPTS
            invariant
                self@ == old(self)@,
                self.wf(),
                sure == (chosen_channels(old(self)@.bindings, conn, channel_views(channels@)).len()
                    == 0 || (old(self)@.bindings.len() == 0 && chosen_channels(
                    old(self)@.bindings,
                    conn,
                    channel_views(channels@),
                ).len() <= 1)),
                sure ==> attempt == 0,
            decreases ID_ATTEMPTS - attempt,
        {
            let mut ids: Vec<u128> = Vec::new();
            let mut k: usize = 0;
            while k < channels.len()
                invariant
                    k <= channels@.len(),
                    ids@.len() == k,
                decreases channels@.len() - k,
            {
                ids.push(fresh_id());
                k = k + 1;
            }
            proof {
                if sure {
                    lemma_subscribe_succeeds(old(self)@.bindings, conn, channel_views(channels@), ids@);
                }
            }
            if self.subscribe_with_ids(conn, channels, &ids).is_ok() {
                proof {
                    lemma_subscribe_extends(old(self)@.bindings, conn, channel_views(channels@), ids@);
                    let added = chosen_channels(old(self)@.bindings, conn, channel_views(channels@));
                    if added.len() == 0 {
                        assert(self@.bindings =~= old(self)@.bindings.subrange(0, old(self)@.bindings.len() as int));
                        assert(self@.bindings =~= old(self)@.bindings);
                    }
                }
                return true;
            }
            attempt = attempt + 1;
        }
        false
    }

    /// The deliveries a broadcast on `channel` owes.
    pub fn targets(&self, channel: &[u8]) -> (r: Vec<Delivery>)
        ensures
            r@ == targets_of(self@, channel@),
    {
        let mut r: Vec<Delivery> = Vec::new();
        let mut i: usize = 0;
        let ghost bs = self@.bindings;
        while i < self.bindings.len()
            invariant
                i <= self.bindings@.len(),
                bs == self@.bindings,
                r@ == deliveries_of(bs.subrange(0, i as int), self@.pending, channel@),
            decreases self.bindings@.len() - i,
        {
            assert(bs.subrange(0, i + 1).drop_last() =~= bs.subrange(0, i as int));
            let b = &self.bindings[i];
            if bytes_equal(b.channel.as_slice(), channel) && !self.is_pending(b.id) {
                r.push(Delivery { id: b.id, conn: b.conn });
            }
            i = i + 1;
        }
        assert(bs.subrange(0, i as int) =~= bs);
        r
    }

    /// Stages a bound id for removal; the bindings stay as they are until
    /// the next `reconcile`.
    pub fn mark_failed(&mut self, id: u128)
        requires
            old(self).wf(),
        ensures
            final(self).wf(),
            final(self)@.bindings == old(self)@.bindings,
            final(self)@.pending == if bound_id(old(self)@.bindings, id) {
                old(self)@.pending.insert(id)
            } else {
                old(self)@.pending
            },
    {
        let ghost before = self@;
        let ghost pv = self.pending@;
        if self.id_in_use(id) && !self.is_pending(id) {
            self.pending.push(id);
            proof {
                lemma_push_contains(pv, id);
            }
            assert(self@.bindings =~= before.bindings);
            assert(self@.pending =~= before.pending.insert(id));
        } else {
            assert(bound_id(before.bindings, id) ==> before.pending.insert(id) =~= before.pending);
        }
    }

    /// Stages the id of every delivery whose write failed (`ok[i]` false).
    pub fn record_outcomes(&mut self, sent: &Vec<Delivery>, ok: &Vec<bool>)
        requires
            old(self).wf(),
            sent@.len() == ok@.len(),
        ensures
            final(self).wf(),
            final(self)@ == after_outcomes(old(self)@, sent@, ok@),
    {
        let ghost start = self@;
        let mut i: usize = 0;
        while i < sent.len()
            invariant
                self.wf(),
                i <= sent@.len() == ok@.len(),
                self@.bindings == start.bindings,
                self@.pending == start.pending.union(
                    failed_ids(start.bindings, sent@.subrange(0, i as int), ok@.subrange(0, i as int)),
                ),
            decreases sent@.len() - i,
        {
            let ghost before = self@;
            if !ok[i] {
                self.mark_failed(sent[i].id);
            }
            proof {
                let s1 = sent@.subrange(0, i + 1);
                let o1 = ok@.subrange(0, i + 1);
                let s0 = sent@.subrange(0, i as int);
                let o0 = ok@.subrange(0, i as int);
                assert forall|id: u128| #[trigger] self@.pending.contains(id) <==> start.pending.union(failed_ids(start.bindings, s1, o1)).contains(id) by {
                    if failed_ids(start.bindings, s0, o0).contains(id) {
                        let k = choose|k: int| 0 <= k < s0.len() && (#[trigger] s0[k]).id == id && !o0[k];
                        assert(s1[k] == s0[k] && o1[k] == o0[k]);
                    }
                    if failed_ids(start.bindings, s1, o1).contains(id) {
                        let k = choose|k: int| 0 <= k < s1.len() && (#[trigger] s1[k]).id == id && !o1[k];
                        if k < i {
                            assert(s0[k] == s1[k] && o0[k] == o1[k]);
                        }
                    }
                    if !ok@[i as int] && sent@[i as int].id == id && bound_id(start.bindings, id) {
                        assert(s1[i as int].id == id && !o1[i as int]);
                    }
                }
                assert(self@.pending =~= start.pending.union(failed_ids(start.bindings, s1, o1)));
            }
            i = i + 1;
        }
        assert(sent@.subrange(0, i as int) =~= sent@);
        assert(ok@.subrange(0, i as int) =~= ok@);
    }

    /// The janitor's sweep: removes every staged binding and empties the stage.
    pub fn reconcile(&mut self)
        requires
            old(self).wf(),
        ensures
            final(self).wf(),
            final(self)@ == reconciled(old(self)@),
    {
        let ghost start = self@;
        let ghost bs = start.bindings;
        let mut kept: Vec<Binding> = Vec::new();
        let mut i: usize = 0;
        while i < self.bindings.len()
            invariant
                i <= self.bindings@.len(),
                self@ == start,
                bs == start.bindings,
                kept@.map_values(|b: Binding| model_of(b)) == retained(bs.subrange(0, i as int), start.pending),
            decreases self.bindings@.len() - i,
        {
            assert(bs.subrange(0, i + 1).drop_last() =~= bs.subrange(0, i as int));
            let b = &self.bindings[i];
            if !self.is_pending(b.id) {
                let copied = copy_prefix(b.channel.as_slice(), b.channel.len());
                assert(copied@ =~= b.channel@);
                let ghost prev = kept@.map_values(|b: Binding| model_of(b));
                kept.push(Binding { id: b.id, conn: b.conn, channel: copied });
                assert(kept@.map_values(|b: Binding| model_of(b)) =~= prev.push(bs[i as int]));
            }
            i = i + 1;
        }
        assert(bs.subrange(0, i as int) =~= bs);
        self.bindings = kept;
        self.pending = Vec::new();
        proof {
            lemma_retained_wf(bs, start.pending);
        }
        assert(self@.pending =~= Set::<u128>::empty());
    }

    /// Drops every binding of the connection, and any staged id it held.
    pub fn unsubscribe_connection(&mut self, conn: u64)
        requires
            old(self).wf(),
        ensures
            final(self).wf(),
            final(self)@ == departed(old(self)@, conn),
    {
        let ghost start = self@;
        let ghost bs = start.bindings;
        let mut kept: Vec<Binding> = Vec::new();
        let mut i: usize = 0;
        while i < self.bindings.len()
            invariant
                i <= self.bindings@.len(),
                self@ == start,
                bs == start.bindings,
                kept@.map_values(|b: Binding| model_of(b)) == without_conn(bs.subrange(0, i as int), conn),
            decreases self.bindings@.len() - i,
        {
            assert(bs.subrange(0, i + 1).drop_last() =~= bs.subrange(0, i as int));
            let b = &self.bindings[i];
            if b.conn != conn {
                let copied = copy_prefix(b.channel.as_slice(), b.channel.len());
                assert(copied@ =~= b.channel@);
                let ghost prev = kept@.map_values(|b: Binding| model_of(b));
                kept.push(Binding { id: b.id, conn: b.conn, channel: copied });
                assert(kept@.map_values(|b: Binding| model_of(b)) =~= prev.push(bs[i as int]));
            }
            i = i + 1;
        }
        assert(bs.subrange(0, i as int) =~= bs);
        let ghost nbs = without_conn(bs, conn);
        let ghost pv = self.pending@;
        let mut still: Vec<u128> = Vec::new();
        let mut j: usize = 0;
        self.bindings = kept;
        assert(self@.bindings =~= nbs);
        while j < self.pending.len()
            invariant
                j <= self.pending@.len(),
                self@.bindings == nbs,
                self.pending@ == pv,
                forall|id: u128|
                    #[trigger] still@.contains(id) <==> pv.subrange(0, j as int).contains(id)
                        && bound_id(nbs, id),
            decreases self.pending@.len() - j,
        {
            let id = self.pending[j];
            let ghost s0 = still@;
            assert(pv.subrange(0, j + 1) =~= pv.subrange(0, j as int).push(id));
            proof {
                lemma_push_contains(pv.subrange(0, j as int), id);
            }
            if self.id_in_use(id) {
                still.push(id);
                proof {
                    lemma_push_contains(s0, id);
                }
            }
            j = j + 1;
        }
        assert(pv.subrange(0, j as int) =~= pv);
        self.pending = still;
        proof {
            lemma_without_conn_wf(bs, conn);
        }
        assert(self@.pending =~= departed(start, conn).pending);
    }
}

proof fn lemma_subscribe_none_propagates(
    bs: Seq<BindingModel>,
    conn: u64,
    cs: Seq<Seq<u8>>,
    ids: Seq<u128>,
    i: int,
)
    requires
        0 < i <= cs.len() == ids.len(),
        subscribe_result(bs, conn, cs.subrange(0, i), ids.subrange(0, i)) is None,
    ensures
        subscribe_result(bs, conn, cs, ids) is None,
    decreases cs.len() - i,
{
    if i < cs.len() {
        assert(cs.drop_last().subrange(0, i) =~= cs.subrange(0, i));
        assert(ids.drop_last().subrange(0, i) =~= ids.subrange(0, i));
        lemma_subscribe_none_propagates(bs, conn, cs.drop_last(), ids.drop_last(), i);
    } else {
        assert(cs.subrange(0, i) =~= cs);
        assert(ids.subrange(0, i) =~= ids);
    }
}

/// With `now` holding `bs` plus `conn`'s bindings on `added`, the connection
/// is bound to `c` in `now` exactly when it was in `bs` or `c` was added.
proof fn lemma_skip_agrees(bs: Seq<BindingModel>, now: Seq<BindingModel>, conn: u64, added: Seq<Seq<u8>>, c: Seq<u8>)
    requires
        extends_with(bs, now, conn, added),
    ensures
        bound_to(now, conn, c) <==> bound_to(bs, conn, c) || added.contains(c),
{
    if bound_to(now, conn, c) {
        let k = choose|k: int| 0 <= k < now.len() && (#[trigger] now[k]).conn == conn && now[k].channel == c;
        if k < bs.len() {
            assert(now.subrange(0, bs.len() as int)[k] == now[k]);
        } else {
            let j = k - bs.len();
            assert(now[bs.len() + j].channel == added[j]);
        }
    }
    if bound_to(bs, conn, c) {
        let k = choose|k: int| 0 <= k < bs.len() && (#[trigger] bs[k]).conn == conn && bs[k].channel == c;
        assert(now.subrange(0, bs.len() as int)[k] == now[k]);
    }
    if added.contains(c) {
        let j = choose|j: int| 0 <= j < added.len() && added[j] == c;
        assert(now[bs.len() + j].conn == conn);
    }
}

/// No id can clash when nothing is to be bound, or when a single binding is
/// to be made in an empty registry.
proof fn lemma_subscribe_succeeds(bs: Seq<BindingModel>, conn: u64, cs: Seq<Seq<u8>>, ids: Seq<u128>)
    requires
        ids.len() == cs.len(),
        chosen_channels(bs, conn, cs).len() == 0 || (bs.len() == 0 && chosen_channels(bs, conn, cs).len() <= 1),
    ensures
        subscribe_result(bs, conn, cs, ids) is Some,
    decreases cs.len(),
{
    if cs.len() > 0 {
        let pc = cs.drop_last();
        let pi = ids.drop_last();
        let added = chosen_channels(bs, conn, pc);
        assert(added.len() <= chosen_channels(bs, conn, cs).len());
        lemma_subscribe_succeeds(bs, conn, pc, pi);
        lemma_subscribe_extends(bs, conn, pc, pi);
        let now = subscribe_result(bs, conn, pc, pi)->Some_0;
        let c = cs.last();
        lemma_skip_agrees(bs, now, conn, added, c);
        if !(c.len() == 0 || bound_to(now, conn, c)) {
            assert(chosen_channels(bs, conn, cs) == added.push(c));
            assert(now.len() == 0);
        }
    }
}

/// With ids that are distinct and none of them bound, subscribing succeeds and
/// appends one binding of `conn` for each chosen channel, in order, using only
/// those ids.
pub proof fn lemma_fresh_ids_subscribe(bs: Seq<BindingModel>, conn: u64, cs: Seq<Seq<u8>>, ids: Seq<u128>)
    requires
        ids.len() == cs.len(),
        forall|i: int, j: int| 0 <= i < j < ids.len() ==> ids[i] != ids[j],
        forall|i: int| 0 <= i < ids.len() ==> !bound_id(bs, #[trigger] ids[i]),
    ensures
        subscribe_result(bs, conn, cs, ids) is Some,
        extends_with(bs, subscribe_result(bs, conn, cs, ids)->Some_0, conn, chosen_channels(bs, conn, cs)),
        forall|x: u128|
            #[trigger] bound_id(subscribe_result(bs, conn, cs, ids)->Some_0, x) ==> bound_id(bs, x)
                || ids.contains(x),
    decreases cs.len(),
{
    if cs.len() == 0 {
        assert(bs.subrange(0, bs.len() as int) =~= bs);
    } else {
        let pc = cs.drop_last();
        let pi = ids.drop_last();
        let n = ids.len() - 1;
        assert forall|i: int| 0 <= i < pi.len() implies !bound_id(bs, #[trigger] pi[i]) by {
            assert(pi[i] == ids[i]);
        }
        lemma_fresh_ids_subscribe(bs, conn, pc, pi);
        let now = subscribe_result(bs, conn, pc, pi)->Some_0;
        let id = ids.last();
        assert(!bound_id(now, id)) by {
            if bound_id(now, id) {
                assert(!bound_id(bs, ids[n]));
                if pi.contains(id) {
                    let k = choose|k: int| 0 <= k < pi.len() && pi[k] == id;
                    assert(ids[k] == pi[k]);
                }
            }
        }
        lemma_subscribe_extends(bs, conn, cs, ids);
        let after = subscribe_result(bs, conn, cs, ids)->Some_0;
        assert forall|x: u128| #[trigger] bound_id(after, x) implies bound_id(bs, x) || ids.contains(x) by {
            let k = choose|k: int| 0 <= k < after.len() && (#[trigger] after[k]).id == x;
            if k < now.len() {
                assert(after[k] == now[k]);
                assert(bound_id(now, x));
                if pi.contains(x) {
                    let q = choose|q: int| 0 <= q < pi.len() && pi[q] == x;
                    assert(ids[q] == x);
                }
            } else {
                assert(ids[n] == x);
            }
        }
    }
}

/// A successful subscription appends, for `conn`, exactly the chosen channels.
proof fn lemma_subscribe_extends(bs: Seq<BindingModel>, conn: u64, cs: Seq<Seq<u8>>, ids: Seq<u128>)
    requires
        ids.len() == cs.len(),
        subscribe_result(bs, conn, cs, ids) is Some,
    ensures
        extends_with(bs, subscribe_result(bs, conn, cs, ids)->Some_0, conn, chosen_channels(bs, conn, cs)),
    decreases cs.len(),
{
    if cs.len() == 0 {
        assert(bs.subrange(0, bs.len() as int) =~= bs);
    } else {
        let now = subscribe_result(bs, conn, cs.drop_last(), ids.drop_last())->Some_0;
        lemma_subscribe_extends(bs, conn, cs.drop_last(), ids.drop_last());
        let added = chosen_channels(bs, conn, cs.drop_last());
        let c = cs.last();
        let after = subscribe_result(bs, conn, cs, ids)->Some_0;
        let nxt = chosen_channels(bs, conn, cs);
        lemma_skip_agrees(bs, now, conn, added, c);
        if !(c.len() == 0 || bound_to(now, conn, c)) {
            assert(nxt == added.push(c));
            assert(after == now.push(BindingModel { id: ids.last(), conn, channel: c }));
            assert(after.subrange(0, bs.len() as int) =~= bs) by {
                assert forall|k: int| 0 <= k < bs.len() implies after[k] == bs[k] by {
                    assert(now.subrange(0, bs.len() as int)[k] == now[k]);
                }
            }
            assert forall|k: int| 0 <= k < nxt.len() implies (#[trigger] after[bs.len() + k]).conn == conn
                && after[bs.len() + k].channel == nxt[k] by {
                if k < added.len() {
                    assert(after[bs.len() + k] == now[bs.len() + k]);
                }
            }
        } else {
            assert(nxt == added);
            assert(after == now);
        }
    }
}

proof fn lemma_push_contains<A>(s: Seq<A>, v: A)
    ensures
        forall|x: A| #[trigger] s.push(v).contains(x) <==> s.contains(x) || x == v,
{
    let t = s.push(v);
    assert forall|x: A| #[trigger] t.contains(x) <==> s.contains(x) || x == v by {
        if s.contains(x) {
            let k = choose|k: int| 0 <= k < s.len() && s[k] == x;
            assert(t[k] == x);
        }
        if x == v {
            assert(t[s.len() as int] == v);
        }
        if t.contains(x) {
            let k = choose|k: int| 0 <= k < t.len() && t[k] == x;
            if k < s.len() {
                assert(s[k] == x);
            }
        }
    }
}

proof fn lemma_push_wf(bs: Seq<BindingModel>, b: BindingModel)
    requires
        bindings_wf(bs),
        b.channel.len() > 0,
        forall|i: int|
            0 <= i < bs.len() ==> (#[trigger] bs[i]).id != b.id && !(bs[i].conn == b.conn
                && bs[i].channel == b.channel),
    ensures
        bindings_wf(bs.push(b)),
{
    let r = bs.push(b);
    assert forall|i: int| 0 <= i < bs.len() implies #[trigger] r[i] == bs[i] by {}
}

proof fn lemma_init_wf(bs: Seq<BindingModel>)
    requires
        bindings_wf(bs),
        bs.len() > 0,
    ensures
        bindings_wf(bs.drop_last()),
        forall|i: int|
            0 <= i < bs.len() - 1 ==> (#[trigger] bs[i]).id != bs.last().id && !(bs[i].conn
                == bs.last().conn && bs[i].channel == bs.last().channel),
{
    let init = bs.drop_last();
    assert forall|i: int| 0 <= i < init.len() implies #[trigger] init[i] == bs[i] by {}
    assert forall|i: int| 0 <= i < bs.len() - 1 implies (#[trigger] bs[i]).id != bs.last().id
        && !(bs[i].conn == bs.last().conn && bs[i].channel == bs.last().channel) by {
        assert(bs[bs.len() - 1] == bs.last());
    }
}

proof fn lemma_retained_wf(bs: Seq<BindingModel>, p: Set<u128>)
    requires
        bindings_wf(bs),
    ensures
        bindings_wf(retained(bs, p)),
        forall|x: BindingModel| #[trigger] retained(bs, p).contains(x) ==> bs.contains(x) && !p.contains(x.id),
    decreases bs.len(),
{
    if bs.len() > 0 {
        let init = bs.drop_last();
        lemma_init_wf(bs);
        lemma_retained_wf(init, p);
        let r = retained(init, p);
        assert forall|x: BindingModel| #[trigger] init.contains(x) implies bs.contains(x) by {
            let k = choose|k: int| 0 <= k < init.len() && init[k] == x;
            assert(bs[k] == init[k]);
        }
        if !p.contains(bs.last().id) {
            assert forall|i: int| 0 <= i < r.len() implies (#[trigger] r[i]).id != bs.last().id
                && !(r[i].conn == bs.last().conn && r[i].channel == bs.last().channel) by {
                assert(r.contains(r[i]));
                let k = choose|k: int| 0 <= k < init.len() && init[k] == r[i];
                assert(bs[k] == init[k]);
            }
            lemma_push_wf(r, bs.last());
            assert forall|x: BindingModel| #[trigger] r.push(bs.last()).contains(x) implies bs.contains(x) && (
                if x == bs.last() { true } else { r.contains(x) }) by {
                if x != bs.last() {
                    let k = choose|k: int| 0 <= k < r.len() + 1 && r.push(bs.last())[k] == x;
                    assert(r[k] == x);
                    assert(r.contains(x));
                } else {
                    assert(bs[bs.len() - 1] == x);
                }
            }
        }
    }
}

proof fn lemma_without_conn_wf(bs: Seq<BindingModel>, conn: u64)
    requires
        bindings_wf(bs),
    ensures
        bindings_wf(without_conn(bs, conn)),
        forall|x: BindingModel| #[trigger] without_conn(bs, conn).contains(x) ==> bs.contains(x) && x.conn != conn,
    decreases bs.len(),
{
    if bs.len() > 0 {
        let init = bs.drop_last();
        lemma_init_wf(bs);
        lemma_without_conn_wf(init, conn);
        let r = without_conn(init, conn);
        assert forall|x: BindingModel| #[trigger] init.contains(x) implies bs.contains(x) by {
            let k = choose|k: int| 0 <= k < init.len() && init[k] == x;
            assert(bs[k] == init[k]);
        }
        if bs.last().conn != conn {
            assert forall|i: int| 0 <= i < r.len() implies (#[trigger] r[i]).id != bs.last().id
                && !(r[i].conn == bs.last().conn && r[i].channel == bs.last().channel) by {
                assert(r.contains(r[i]));
                let k = choose|k: int| 0 <= k < init.len() && init[k] == r[i];
                assert(bs[k] == init[k]);
            }
            lemma_push_wf(r, bs.last());
            assert forall|x: BindingModel| #[trigger] r.push(bs.last()).contains(x) implies bs.contains(x) && (
                if x == bs.last() { true } else { r.contains(x) }) by {
                if x != bs.last() {
                    let k = choose|k: int| 0 <= k < r.len() + 1 && r.push(bs.last())[k] == x;
                    assert(r[k] == x);
                    assert(r.contains(x));
                } else {
                    assert(bs[bs.len() - 1] == x);
                }
            }
        }
    }
}

/// One janitor cycle: sweeps the bindings staged after failed writes.
pub fn clean(registry: &mut Registry)
    requires
        old(registry).wf(),
    ensures
        final(registry).wf(),
        final(registry)@ == reconciled(old(registry)@),
{
    registry.reconcile();
}

/// Some binding of `conn` on `c` is not staged for removal.
pub open spec fn live_on(m: RegistryModel, conn: u64, c: Seq<u8>) -> bool {
    exists|j: int|
        0 <= j < m.bindings.len() && (#[trigger] m.bindings[j]).conn == conn && m.bindings[j].channel
            == c && !m.pending.contains(m.bindings[j].id)
}

proof fn lemma_deliveries_member(bs: Seq<BindingModel>, p: Set<u128>, c: Seq<u8>, d: Delivery)
    ensures
        deliveries_of(bs, p, c).contains(d) <==> exists|j: int|
            0 <= j < bs.len() && (#[trigger] bs[j]).channel == c && !p.contains(bs[j].id) && d
                == delivery_of(bs[j]),
    decreases bs.len(),
{
    if bs.len() > 0 {
        let init = bs.drop_last();
        lemma_deliveries_member(init, p, c, d);
        let rest = deliveries_of(init, p, c);
        let b = bs.last();
        if b.channel == c && !p.contains(b.id) {
            lemma_push_contains(rest, delivery_of(b));
        }
        if deliveries_of(bs, p, c).contains(d) {
            if rest.contains(d) {
                let j = choose|j: int|
                    0 <= j < init.len() && (#[trigger] init[j]).channel == c && !p.contains(init[j].id)
                        && d == delivery_of(init[j]);
                assert(bs[j] == init[j]);
            } else {
                assert(bs[bs.len() - 1] == b);
            }
        }
        if exists|j: int|
            0 <= j < bs.len() && (#[trigger] bs[j]).channel == c && !p.contains(bs[j].id) && d
                == delivery_of(bs[j]) {
            let j = choose|j: int|
                0 <= j < bs.len() && (#[trigger] bs[j]).channel == c && !p.contains(bs[j].id) && d
                    == delivery_of(bs[j]);
            if j < bs.len() - 1 {
                assert(init[j] == bs[j]);
            } else {
                assert(bs[j] == b);
            }
        }
    }
}

proof fn lemma_deliveries_distinct(bs: Seq<BindingModel>, p: Set<u128>, c: Seq<u8>)
    requires
        bindings_wf(bs),
    ensures
        forall|i: int, j: int|
            0 <= i < j < deliveries_of(bs, p, c).len() ==> (#[trigger] deliveries_of(bs, p, c)[i]).id
                != (#[trigger] deliveries_of(bs, p, c)[j]).id && deliveries_of(bs, p, c)[i].conn
                != deliveries_of(bs, p, c)[j].conn,
    decreases bs.len(),
{
    if bs.len() > 0 {
        let init = bs.drop_last();
        lemma_init_wf(bs);
        lemma_deliveries_distinct(init, p, c);
        let rest = deliveries_of(init, p, c);
        let b = bs.last();
        if b.channel == c && !p.contains(b.id) {
            let t = rest.push(delivery_of(b));
            assert forall|i: int, j: int| 0 <= i < j < t.len() implies (#[trigger] t[i]).id != (
            #[trigger] t[j]).id && t[i].conn != t[j].conn by {
                if j < rest.len() {
                    assert(t[i] == rest[i] && t[j] == rest[j]);
                } else {
                    assert(t[i] == rest[i]);
                    assert(rest.contains(rest[i]));
                    lemma_deliveries_member(init, p, c, rest[i]);
                    let k = choose|k: int|
                        0 <= k < init.len() && (#[trigger] init[k]).channel == c && !p.contains(
                            init[k].id,
                        ) && rest[i] == delivery_of(init[k]);
                    assert(bs[k] == init[k]);
                }
            }
        }
    }
}

/// A broadcast on `c` owes each connection with a live binding on `c` exactly
/// one delivery, and no other connection any: no sink gets two copies, and
/// no staged binding is written to.
pub proof fn lemma_broadcast_reaches_each_live_subscriber_once(m: RegistryModel, c: Seq<u8>, conn: u64)
    requires
        model_wf(m),
    ensures
        live_on(m, conn, c) ==> exists|i: int|
            0 <= i < targets_of(m, c).len() && (#[trigger] targets_of(m, c)[i]).conn == conn,
        !live_on(m, conn, c) ==> forall|i: int|
            0 <= i < targets_of(m, c).len() ==> (#[trigger] targets_of(m, c)[i]).conn != conn,
        forall|i: int, j: int|
            0 <= i < j < targets_of(m, c).len() ==> (#[trigger] targets_of(m, c)[i]).conn != (
            #[trigger] targets_of(m, c)[j]).conn,
        forall|i: int|
            0 <= i < targets_of(m, c).len() ==> !m.pending.contains(
                (#[trigger] targets_of(m, c)[i]).id,
            ),
{
    let t = targets_of(m, c);
    let bs = m.bindings;
    lemma_deliveries_distinct(bs, m.pending, c);
    if live_on(m, conn, c) {
        let j = choose|j: int|
            0 <= j < bs.len() && (#[trigger] bs[j]).conn == conn && bs[j].channel == c
                && !m.pending.contains(bs[j].id);
        lemma_deliveries_member(bs, m.pending, c, delivery_of(bs[j]));
        let i = choose|i: int| 0 <= i < t.len() && t[i] == delivery_of(bs[j]);
        assert(t[i].conn == conn);
    }
    assert forall|i: int| 0 <= i < t.len() implies !m.pending.contains((#[trigger] t[i]).id) && (
    !live_on(m, conn, c) ==> t[i].conn != conn) by {
        assert(t.contains(t[i]));
        lemma_deliveries_member(bs, m.pending, c, t[i]);
    }
}

proof fn lemma_retained_nothing_staged(bs: Seq<BindingModel>)
    ensures
        retained(bs, Set::empty()) == bs,
    decreases bs.len(),
{
    if bs.len() > 0 {
        lemma_retained_nothing_staged(bs.drop_last());
        assert(bs.drop_last().push(bs.last()) =~= bs);
    }
}

/// With nothing staged, the janitor's sweep leaves the registry as it was.
pub proof fn lemma_reconcile_with_nothing_staged_is_noop(m: RegistryModel)
    requires
        m.pending == Set::<u128>::empty(),
    ensures
        reconciled(m) == m,
{
    lemma_retained_nothing_staged(m.bindings);
}

/// A failed write during a broadcast touches only the failing binding: the
/// bindings stay, every binding written successfully stays a target of the
/// channel, and only the failed ones stop being targets.
pub proof fn lemma_failed_write_is_isolated(m: RegistryModel, c: Seq<u8>, ok: Seq<bool>)
    requires
        model_wf(m),
        ok.len() == targets_of(m, c).len(),
    ensures
        after_outcomes(m, targets_of(m, c), ok).bindings == m.bindings,
        forall|i: int|
            0 <= i < ok.len() && ok[i] ==> targets_of(after_outcomes(m, targets_of(m, c), ok), c).contains(
                #[trigger] targets_of(m, c)[i],
            ),
        forall|i: int|
            0 <= i < ok.len() && !ok[i] ==> !targets_of(
                after_outcomes(m, targets_of(m, c), ok),
                c,
            ).contains(#[trigger] targets_of(m, c)[i]),
{
    let sent = targets_of(m, c);
    let m2 = after_outcomes(m, sent, ok);
    let bs = m.bindings;
    lemma_deliveries_distinct(bs, m.pending, c);
    assert forall|i: int| 0 <= i < ok.len() implies (ok[i] ==> targets_of(m2, c).contains(
        #[trigger] sent[i],
    )) && (!ok[i] ==> !targets_of(m2, c).contains(sent[i])) by {
        assert(sent.contains(sent[i]));
        lemma_deliveries_member(bs, m.pending, c, sent[i]);
        lemma_deliveries_member(bs, m2.pending, c, sent[i]);
        let j = choose|j: int|
            0 <= j < bs.len() && (#[trigger] bs[j]).channel == c && !m.pending.contains(bs[j].id)
                && sent[i] == delivery_of(bs[j]);
        if ok[i] {
            if failed_ids(bs, sent, ok).contains(sent[i].id) {
                let k = choose|k: int| 0 <= k < sent.len() && (#[trigger] sent[k]).id == sent[i].id && !ok[k];
                assert(k != i);
            }
            assert(!m2.pending.contains(bs[j].id));
        } else {
            assert(bound_id(bs, sent[i].id)) by {
                assert(bs[j].id == sent[i].id);
            }
            assert(failed_ids(bs, sent, ok).contains(sent[i].id));
            if targets_of(m2, c).contains(sent[i]) {
                let j2 = choose|j2: int|
                    0 <= j2 < bs.len() && (#[trigger] bs[j2]).channel == c && !m2.pending.contains(
                        bs[j2].id,
                    ) && sent[i] == delivery_of(bs[j2]);
                assert(bs[j2].id == sent[i].id);
            }
        }
    }
}

/// Once a connection has left, no broadcast on any channel is owed to it.
pub proof fn lemma_departed_connection_not_targeted(m: RegistryModel, conn: u64, c: Seq<u8>)
    requires
        model_wf(m),
    ensures
        forall|i: int|
            0 <= i < targets_of(departed(m, conn), c).len() ==> (#[trigger] targets_of(
                departed(m, conn),
                c,
            )[i]).conn != conn,
{
    let m2 = departed(m, conn);
    let t = targets_of(m2, c);
    lemma_without_conn_wf(m.bindings, conn);
    assert forall|i: int| 0 <= i < t.len() implies (#[trigger] t[i]).conn != conn by {
        assert(t.contains(t[i]));
        lemma_deliveries_member(m2.bindings, m2.pending, c, t[i]);
        let j = choose|j: int|
            0 <= j < m2.bindings.len() && (#[trigger] m2.bindings[j]).channel == c
                && !m2.pending.contains(m2.bindings[j].id) && t[i] == delivery_of(m2.bindings[j]);
        assert(m2.bindings.contains(m2.bindings[j]));
    }
}

/// After the janitor's sweep, no broadcast is owed to a binding that was
/// staged for removal.
pub proof fn lemma_swept_binding_not_targeted(m: RegistryModel, id: u128, c: Seq<u8>)
    requires
        model_wf(m),
        m.pending.contains(id),
    ensures
        forall|i: int|
            0 <= i < targets_of(reconciled(m), c).len() ==> (#[trigger] targets_of(
                reconciled(m),
                c,
            )[i]).id != id,
{
    let m2 = reconciled(m);
    let t = targets_of(m2, c);
    lemma_retained_wf(m.bindings, m.pending);
    assert forall|i: int| 0 <= i < t.len() implies (#[trigger] t[i]).id != id by {
        assert(t.contains(t[i]));
        lemma_deliveries_member(m2.bindings, m2.pending, c, t[i]);
        let j = choose|j: int|
            0 <= j < m2.bindings.len() && (#[trigger] m2.bindings[j]).channel == c
                && !m2.pending.contains(m2.bindings[j].id) && t[i] == delivery_of(m2.bindings[j]);
        assert(m2.bindings.contains(m2.bindings[j]));
    }
}

} // verus!

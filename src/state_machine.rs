use vstd::prelude::*;

use crate::bytes::{copy_range, same_bytes};
use crate::messages::{
    fragment_ok, fragment_spec, hash_matches, lemma_split_shape, max_message_spec, num_shares,
    padded_payload, parse_fragment, shares_of_split, short_hash_spec, split_message_spec,
    unite_message, unite_message_spec, FIELDS_LEN, NONCE_LEN,
};
use crate::shares::{
    distinct_indices, split_data_spec, lemma_present_count_empty, lemma_present_count_fill, opt_rows, present_count, share_views, DataShare,
};

verus! {

/// Number of time ticks that an entry lives without being refreshed.
pub const MESSAGE_ID_TICKS: usize = 30;

/// What the state machine knows of one message id.
pub enum IdState {
    /// Shares are being collected; `slots` holds the share of each index
    /// received so far.
    Assembling { ticks: nat, b: u8, share_len: nat, slots: Seq<Option<Seq<u8>>> },
    /// The message was rebuilt, failed to rebuild, or timed out; fragments of
    /// this id are dropped until the entry expires.
    Completed { ticks: nat },
}

/// The shares present in `slots`, by ascending index.
pub open spec fn present_shares(slots: Seq<Option<Seq<u8>>>) -> Seq<(u8, Seq<u8>)>
    decreases slots.len(),
{
    if slots.len() == 0 {
        Seq::empty()
    } else {
        present_shares(slots.drop_last()) + match slots.last() {
            Some(d) => seq![(((slots.len() - 1) as int) as u8, d)],
            None => Seq::empty(),
        }
    }
}

/// The state of an id after it completes.
pub open spec fn completed() -> IdState {
    IdState::Completed { ticks: MESSAGE_ID_TICKS as nat }
}

/// The slots that fragment `f` adds its share to: those of the assembling
/// entry of its id, or empty ones for a new id.
pub open spec fn prior_slots(m: Map<Seq<u8>, IdState>, f: Seq<u8>) -> Seq<Option<Seq<u8>>> {
    match m.get(f.subrange(0, 8)) {
        Some(IdState::Assembling { ticks: _, b: _, share_len: _, slots }) => slots,
        _ => Seq::new((2 * f[8] - 1) as nat, |i: int| None),
    }
}

/// The slots with the share of fragment `f` added.
pub open spec fn filled_slots(m: Map<Seq<u8>, IdState>, f: Seq<u8>) -> Seq<Option<Seq<u8>>> {
    prior_slots(m, f).update(f[9] as int, Some(f.subrange(10, f.len() - 8)))
}

/// Fragment `f` adds a new share to an id being assembled (or to a new id)
/// with the same framing.
pub open spec fn adds_share(m: Map<Seq<u8>, IdState>, f: Seq<u8>) -> bool {
    let id = f.subrange(0, 8);
    let matches_entry = match m.get(id) {
        Some(IdState::Assembling { ticks: _, b, share_len, slots: _ }) => b == f[8] && share_len == (
        f.len() - FIELDS_LEN),
        Some(IdState::Completed { ticks: _ }) => false,
        None => true,
    };
    &&& fragment_ok(f)
    &&& matches_entry
    &&& prior_slots(m, f)[f[9] as int] is None
}

/// Fragment `f` brings its id to `b` shares: the message is then rebuilt
/// from `completing_shares(m, f)`.
pub open spec fn completes(m: Map<Seq<u8>, IdState>, f: Seq<u8>) -> bool {
    adds_share(m, f) && present_count(filled_slots(m, f)) >= f[8]
}

/// The shares that a completing fragment rebuilds the message from.
pub open spec fn completing_shares(m: Map<Seq<u8>, IdState>, f: Seq<u8>) -> Seq<(u8, Seq<u8>)> {
    present_shares(filled_slots(m, f))
}

/// What ingesting fragment `f` in state `m` does: the next state, and the
/// message that the fragment completes, if any.
pub open spec fn ingest(m: Map<Seq<u8>, IdState>, f: Seq<u8>) -> (Map<Seq<u8>, IdState>, Option<
    Seq<u8>,
>) {
    let id = f.subrange(0, 8);
    if !fragment_ok(f) {
        (m, None)
    } else if m.contains_key(id) && m[id] is Completed {
        (m.insert(id, completed()), None)
    } else if !adds_share(m, f) {
        (m, None)
    } else if !completes(m, f) {
        let ticks = match m.get(id) {
            Some(IdState::Assembling { ticks, b: _, share_len: _, slots: _ }) => ticks,
            _ => MESSAGE_ID_TICKS as nat,
        };
        (
            m.insert(
                id,
                IdState::Assembling {
                    ticks,
                    b: f[8],
                    share_len: (f.len() - FIELDS_LEN) as nat,
                    slots: filled_slots(m, f),
                },
            ),
            None,
        )
    } else {
        (m.insert(id, completed()), unite_message_spec(id, completing_shares(m, f)))
    }
}

/// One time tick of an entry.
pub open spec fn tick_state(s: IdState) -> IdState {
    match s {
        IdState::Assembling { ticks, b, share_len, slots } => if ticks <= 1 {
            completed()
        } else {
            IdState::Assembling { ticks: (ticks - 1) as nat, b, share_len, slots }
        },
        IdState::Completed { ticks } => IdState::Completed { ticks: (ticks - 1) as nat },
    }
}

/// Whether an entry survives a time tick.
pub open spec fn tick_keeps(s: IdState) -> bool {
    match s {
        IdState::Completed { ticks } => ticks > 1,
        _ => true,
    }
}

/// The state after one time tick.
pub open spec fn time_tick_spec(m: Map<Seq<u8>, IdState>) -> Map<Seq<u8>, IdState> {
    Map::new(|k: Seq<u8>| m.contains_key(k) && tick_keeps(m[k]), |k: Seq<u8>| tick_state(m[k]))
}

/// The entry invariant: ticks within the lifetime, and fewer than `b`
/// shares for an id still being assembled.
pub open spec fn state_wf(s: IdState) -> bool {
    match s {
        IdState::Assembling { ticks, b, share_len, slots } => {
            &&& 1 <= ticks <= MESSAGE_ID_TICKS
            &&& b >= 1
            &&& slots.len() == 2 * b - 1
            &&& present_count(slots) < b
        },
        IdState::Completed { ticks } => 1 <= ticks <= MESSAGE_ID_TICKS,
    }
}

/// Every entry of the state is well formed.
pub open spec fn machine_wf(m: Map<Seq<u8>, IdState>) -> bool {
    &&& m.dom().finite()
    &&& forall|k: Seq<u8>| #[trigger] m.contains_key(k) ==> state_wf(m[k])
}

struct Assembly {
    b: u8,
    share_len: usize,
    slots: Vec<Option<Vec<u8>>>,
    count: usize,
}

enum EntryState {
    Assembling(Assembly),
    Completed,
}

struct Entry {
    id: [u8; 8],
    ticks: usize,
    state: EntryState,
}

spec fn entry_view(e: Entry) -> IdState {
    match e.state {
        EntryState::Assembling(a) => IdState::Assembling {
            ticks: e.ticks as nat,
            b: a.b,
            share_len: a.share_len as nat,
            slots: opt_rows(a.slots@),
        },
        EntryState::Completed => IdState::Completed { ticks: e.ticks as nat },
    }
}

spec fn entry_wf(e: Entry) -> bool {
    &&& state_wf(entry_view(e))
    &&& match e.state {
        EntryState::Assembling(a) => a.count == present_count(opt_rows(a.slots@)),
        EntryState::Completed => true,
    }
}

spec fn table(s: Seq<Entry>) -> Map<Seq<u8>, IdState>
    decreases s.len(),
{
    if s.len() == 0 {
        Map::empty()
    } else {
        table(s.drop_last()).insert(s.last().id@, entry_view(s.last()))
    }
}

spec fn ids_unique(s: Seq<Entry>) -> bool {
    forall|i: int, j: int| 0 <= i < s.len() && 0 <= j < s.len() && i != j ==> (#[trigger] s[i]).id@ != (#[trigger] s[j]).id@
}

proof fn lemma_table_finite(s: Seq<Entry>)
    ensures
        table(s).dom().finite(),
    decreases s.len(),
{
    if s.len() > 0 {
        lemma_table_finite(s.drop_last());
    }
}

proof fn lemma_table_absent(s: Seq<Entry>, k: Seq<u8>)
    requires
        forall|i: int| 0 <= i < s.len() ==> (#[trigger] s[i]).id@ != k,
    ensures
        !table(s).contains_key(k),
    decreases s.len(),
{
    if s.len() > 0 {
        lemma_table_absent(s.drop_last(), k);
    }
}

proof fn lemma_table_find(s: Seq<Entry>, i: int)
    requires
        ids_unique(s),
        0 <= i < s.len(),
    ensures
        table(s).contains_key(s[i].id@),
        table(s)[s[i].id@] == entry_view(s[i]),
    decreases s.len(),
{
    if i < s.len() - 1 {
        lemma_table_find(s.drop_last(), i);
    }
}

proof fn lemma_table_remove(s: Seq<Entry>, i: int)
    requires
        ids_unique(s),
        0 <= i < s.len(),
    ensures
        table(s.remove(i)) == table(s).remove(s[i].id@),
    decreases s.len(),
{
    let k = s[i].id@;
    let t = s.remove(i);
    if i == s.len() - 1 {
        assert(t =~= s.drop_last());
        assert forall|j: int| 0 <= j < t.len() implies (#[trigger] t[j]).id@ != k by {
            assert(t[j] == s[j]);
        }
        lemma_table_absent(t, k);
        assert(table(t) =~= table(s).remove(k));
    } else {
        assert(t.drop_last() =~= s.drop_last().remove(i));
        lemma_table_remove(s.drop_last(), i);
        assert(s.last().id@ != k);
        assert(t.last() == s.last());
        assert(table(t) =~= table(s).remove(k));
    }
}

proof fn lemma_table_prepend(e: Entry, s: Seq<Entry>)
    requires
        ids_unique(seq![e] + s),
    ensures
        table(seq![e] + s) == table(s).insert(e.id@, entry_view(e)),
    decreases s.len(),
{
    let t = seq![e] + s;
    if s.len() == 0 {
        assert(t.drop_last() =~= s);
        assert(t.last() == e);
        assert(table(t) =~= table(s).insert(e.id@, entry_view(e)));
    } else {
        assert(t.drop_last() =~= seq![e] + s.drop_last());
        assert(ids_unique(seq![e] + s.drop_last())) by {
            assert forall|i: int, j: int|
                0 <= i < s.len() && 0 <= j < s.len() && i != j implies (#[trigger] (seq![e]
                + s.drop_last())[i]).id@ != (#[trigger] (seq![e] + s.drop_last())[j]).id@ by {
                assert((seq![e] + s.drop_last())[i] == t[i]);
                assert((seq![e] + s.drop_last())[j] == t[j]);
            }
        }
        lemma_table_prepend(e, s.drop_last());
        assert(t[0].id@ != t[t.len() - 1].id@);
        assert(t.last() == s.last());
        assert(table(t) =~= table(s).insert(e.id@, entry_view(e)));
    }
}


/// Reassembles messages from fragments: deduplicates them by message id,
/// checks their integrity, and ages out stale entries on time ticks.
pub struct FragStateMachine {
    entries: Vec<Entry>,
}

impl View for FragStateMachine {
    type V = Map<Seq<u8>, IdState>;

    closed spec fn view(&self) -> Map<Seq<u8>, IdState> {
        table(self.entries@)
    }
}

fn tick_entry(e: Entry) -> (r: Option<Entry>)
    requires
        entry_wf(e),
    ensures
        r is Some <==> tick_keeps(entry_view(e)),
        r matches Some(t) ==> t.id@ == e.id@ && entry_wf(t) && entry_view(t) == tick_state(
            entry_view(e),
        ),
{
    match e.state {
        EntryState::Assembling(a) => {
            if e.ticks <= 1 {
                Some(Entry { id: e.id, ticks: MESSAGE_ID_TICKS, state: EntryState::Completed })
            } else {
                Some(Entry { id: e.id, ticks: e.ticks - 1, state: EntryState::Assembling(a) })
            }
        },
        EntryState::Completed => {
            if e.ticks <= 1 {
                None
            } else {
                Some(Entry { id: e.id, ticks: e.ticks - 1, state: EntryState::Completed })
            }
        },
    }
}

fn collect_shares(slots: &Vec<Option<Vec<u8>>>) -> (r: Vec<DataShare>)
    ensures
        share_views(r@) == present_shares(opt_rows(slots@)),
{
    let ghost rows = opt_rows(slots@);
    let mut r: Vec<DataShare> = Vec::new();
    let mut j: usize = 0;
    while j < slots.len()
        invariant
            rows == opt_rows(slots@),
            j <= slots@.len(),
            share_views(r@) == present_shares(rows.take(j as int)),
        decreases slots@.len() - j,
    {
        assert(rows.take(j + 1).drop_last() =~= rows.take(j as int));
        assert(rows.take(j + 1).last() == rows[j as int]);
        match &slots[j] {
            Some(v) => {
                let d = copy_range(v.as_slice(), 0, v.len());
                assert(v@.subrange(0, v@.len() as int) =~= v@);
                r.push(DataShare { input: j as u8, data: d });
                assert(share_views(r@) =~= present_shares(rows.take(j + 1)));
            },
            None => {
                assert(share_views(r@) =~= present_shares(rows.take(j + 1)));
            },
        }
        j = j + 1;
    }
    assert(rows.take(slots@.len() as int) =~= rows);
    r
}

proof fn lemma_tick_prepend(m: Map<Seq<u8>, IdState>, k: Seq<u8>, v: IdState)
    requires
        !m.contains_key(k),
    ensures
        time_tick_spec(m.insert(k, v)) == if tick_keeps(v) {
            time_tick_spec(m).insert(k, tick_state(v))
        } else {
            time_tick_spec(m)
        },
{
    if tick_keeps(v) {
        assert(time_tick_spec(m.insert(k, v)) =~= time_tick_spec(m).insert(k, tick_state(v)));
    } else {
        assert(time_tick_spec(m.insert(k, v)) =~= time_tick_spec(m));
    }
}

impl FragStateMachine {
    /// The internal invariant: ids are unique and every entry is well formed.
    pub closed spec fn wf(&self) -> bool {
        &&& ids_unique(self.entries@)
        &&& forall|i: int| 0 <= i < self.entries@.len() ==> entry_wf(#[trigger] self.entries@[i])
    }

    proof fn lemma_wf_view(&self)
        requires
            self.wf(),
        ensures
            machine_wf(self@),
    {
        lemma_table_finite(self.entries@);
        assert forall|k: Seq<u8>| #[trigger] self@.contains_key(k) implies state_wf(self@[k]) by {
            if forall|i: int| 0 <= i < self.entries@.len() ==> (#[trigger] self.entries@[i]).id@ != k {
                lemma_table_absent(self.entries@, k);
            } else {
                let i = choose|i: int| 0 <= i < self.entries@.len() && (#[trigger] self.entries@[i]).id@ == k;
                lemma_table_find(self.entries@, i);
            }
        }
    }

    /// An empty state machine.
    pub fn new() -> (r: Self)
        ensures
            r.wf(),
            r@ == Map::<Seq<u8>, IdState>::empty(),
    {
        FragStateMachine { entries: Vec::new() }
    }

    fn find(&self, id: &[u8; 8]) -> (r: Option<usize>)
        ensures
            r matches Some(i) ==> i < self.entries@.len() && self.entries@[i as int].id@ == id@,
            r is None ==> forall|i: int| 0 <= i < self.entries@.len() ==> (#[trigger] self.entries@[i]).id@ != id@,
    {
        let mut i: usize = 0;
        while i < self.entries.len()
            invariant
                i <= self.entries@.len(),
                forall|q: int| 0 <= q < i ==> (#[trigger] self.entries@[q]).id@ != id@,
            decreases self.entries@.len() - i,
        {
            if same_bytes(&self.entries[i].id, id) {
                return Some(i);
            }
            i = i + 1;
        }
        None
    }

    /// Store `e` in place of the entry at `i`, which has the same id; with no
    /// `i`, no entry has that id.
    fn put(&mut self, i: Option<usize>, e: Entry)
        requires
            old(self).wf(),
            entry_wf(e),
            i matches Some(j) ==> j < old(self).entries@.len() && old(self).entries@[j as int].id@ == e.id@,
            i is None ==> forall|q: int| 0 <= q < old(self).entries@.len() ==> (#[trigger] old(self).entries@[q]).id@ != e.id@,
        ensures
            final(self).wf(),
            final(self)@ == old(self)@.insert(e.id@, entry_view(e)),
    {
        let ghost k = e.id@;
        match i {
            Some(j) => {
                let ghost s = self.entries@;
                proof {
                    lemma_table_remove(s, j as int);
                }
                let _ = self.entries.remove(j);
                assert forall|q: int| 0 <= q < self.entries@.len() implies (#[trigger] self.entries@[q]).id@ != k by {
                    if q < j {
                        assert(self.entries@[q] == s[q]);
                    } else {
                        assert(self.entries@[q] == s[q + 1]);
                    }
                }
                let ghost before = self.entries@;
                self.entries.push(e);
                assert(self.entries@.drop_last() =~= before);
                assert(self.entries@.last() == e);
                assert(self@ =~= old(self)@.insert(k, entry_view(e)));
            },
            None => {
                let ghost before = self.entries@;
                self.entries.push(e);
                assert(self.entries@.drop_last() =~= before);
                assert(self.entries@.last() == e);
            },
        }
    }

    /// Process a newly received fragment; return the message that it
    /// completes, if any.
    pub fn received_frag_message(&mut self, frag_message: &[u8]) -> (r: Option<Vec<u8>>)
        requires
            old(self).wf(),
        ensures
            final(self).wf(),
            machine_wf(final(self)@),
            final(self)@ == ingest(old(self)@, frag_message@).0,
            match r {
                Some(v) => ingest(old(self)@, frag_message@).1 == Some(v@),
                None => ingest(old(self)@, frag_message@).1 is None,
            },
            forall|m: Seq<u8>, nonce: Seq<u8>, d: int|
                completes(old(self)@, frag_message@) && #[trigger] shares_of_split(
                    frag_message@.subrange(0, 8),
                    completing_shares(old(self)@, frag_message@),
                    m,
                    nonce,
                    d,
                ) ==> (r matches Some(v) && v@ == m),
    {
        proof {
            self.lemma_wf_view();
        }
        let ghost f = frag_message@;
        let ghost m = self@;
        let p = match parse_fragment(frag_message) {
            Some(p) => p,
            None => return None,
        };
        let ghost k = p.message_id@;
        let share_length = frag_message.len() - FIELDS_LEN;
        let index = p.share_index as usize;
        let found = self.find(&p.message_id);
        let mut ticks: usize = MESSAGE_ID_TICKS;
        let mut assembly: Assembly;
        match found {
            Some(i) => {
                proof {
                    lemma_table_find(self.entries@, i as int);
                }
                let (is_completed, same_framing, duplicate) = match &self.entries[i].state {
                    EntryState::Completed => (true, false, false),
                    EntryState::Assembling(a) => {
                        let same = a.b == p.b && a.share_len == share_length;
                        let dup = same && a.slots[index].is_some();
                        (false, same, dup)
                    },
                };
                if is_completed {
                    let e = Entry { id: p.message_id, ticks: MESSAGE_ID_TICKS, state: EntryState::Completed };
                    self.put(found, e);
                    proof {
                        self.lemma_wf_view();
                    }
                    return None;
                }
                if !same_framing || duplicate {
                    return None;
                }
                let e = self.entries.remove(i);
                proof {
                    lemma_table_remove(old(self).entries@, i as int);
                }
                ticks = e.ticks;
                match e.state {
                    EntryState::Assembling(a) => {
                        assembly = a;
                    },
                    // Ruled out above: the entry is being assembled.
                    EntryState::Completed => {
                        return None;
                    },
                }
                assert forall|q: int| 0 <= q < self.entries@.len() implies (#[trigger] self.entries@[q]).id@ != k by {
                    if q < i {
                        assert(self.entries@[q] == old(self).entries@[q]);
                    } else {
                        assert(self.entries@[q] == old(self).entries@[q + 1]);
                    }
                }
            },
            None => {
                proof {
                    lemma_table_absent(self.entries@, k);
                }
                let total = 2 * (p.b as usize) - 1;
                let mut slots: Vec<Option<Vec<u8>>> = Vec::with_capacity(total);
                let mut q: usize = 0;
                while q < total
                    invariant
                        q <= total,
                        slots@.len() == q,
                        forall|z: int| 0 <= z < q ==> (#[trigger] slots@[z]) is None,
                    decreases total - q,
                {
                    slots.push(None);
                    q = q + 1;
                }
                assert(opt_rows(slots@) =~= Seq::new(total as nat, |z: int| None::<Seq<u8>>));
                proof {
                    lemma_present_count_empty(total as nat);
                }
                assembly = Assembly { b: p.b, share_len: share_length, slots, count: 0 };
            },
        }
        // Here the entry of `k` is out of the table, and `assembly` is what it held.
        assert(forall|q: int| 0 <= q < self.entries@.len() ==> (#[trigger] self.entries@[q]).id@ != k);
        assert(self@ == m.remove(k));
        let ghost prior = opt_rows(assembly.slots@);
        proof {
            lemma_present_count_fill(prior, index as int, p.share_data@);
        }
        assembly.slots.set(index, Some(p.share_data));
        assembly.count = assembly.count + 1;
        assert(opt_rows(assembly.slots@) =~= prior.update(index as int, Some(p.share_data@)));
        if assembly.count < p.b as usize {
            let e = Entry { id: p.message_id, ticks, state: EntryState::Assembling(assembly) };
            self.put(None, e);
            assert(self@ =~= ingest(m, f).0);
            proof {
                self.lemma_wf_view();
            }
            return None;
        }
        let shares = collect_shares(&assembly.slots);
        let e = Entry { id: p.message_id, ticks: MESSAGE_ID_TICKS, state: EntryState::Completed };
        self.put(None, e);
        assert(self@ =~= ingest(m, f).0);
        proof {
            self.lemma_wf_view();
        }
        assert(share_views(shares@) == completing_shares(m, f));
        match unite_message(&p.message_id, shares.as_slice()) {
            Ok(msg) => Some(msg),
            Err(()) => None,
        }
    }

    /// Advance time by one tick: entries age, expired assemblies become
    /// completed ids, and expired completed ids are forgotten.
    pub fn time_tick(&mut self)
        requires
            old(self).wf(),
        ensures
            final(self).wf(),
            machine_wf(final(self)@),
            final(self)@ == time_tick_spec(old(self)@),
    {
        let mut pending: Vec<Entry> = Vec::new();
        std::mem::swap(&mut self.entries, &mut pending);
        let ghost orig = pending@;
        let mut out: Vec<Entry> = Vec::new();
        assert(orig.subrange(orig.len() as int, orig.len() as int) =~= Seq::<Entry>::empty());
        assert(time_tick_spec(Map::<Seq<u8>, IdState>::empty()) =~= Map::<Seq<u8>, IdState>::empty());
        while pending.len() > 0
            invariant
                pending@ == orig.take(pending@.len() as int),
                pending@.len() <= orig.len(),
                ids_unique(orig),
                forall|i: int| 0 <= i < orig.len() ==> entry_wf(#[trigger] orig[i]),
                ids_unique(out@),
                forall|i: int| 0 <= i < out@.len() ==> entry_wf(#[trigger] out@[i]),
                table(out@) == time_tick_spec(
                    table(orig.subrange(pending@.len() as int, orig.len() as int)),
                ),
            decreases pending@.len(),
        {
            let ghost j = (pending@.len() - 1) as int;
            let e = match pending.pop() {
                Some(e) => e,
                None => {
                    return;
                },
            };
            assert(e == orig[j]);
            let ghost done = orig.subrange(j + 1, orig.len() as int);
            let ghost now = orig.subrange(j, orig.len() as int);
            assert(now =~= seq![e] + done);
            assert(ids_unique(seq![e] + done)) by {
                assert forall|a: int, b: int|
                    0 <= a < now.len() && 0 <= b < now.len() && a != b implies (#[trigger] now[a]).id@
                    != (#[trigger] now[b]).id@ by {
                    assert(now[a] == orig[j + a]);
                    assert(now[b] == orig[j + b]);
                }
            }
            proof {
                lemma_table_prepend(e, done);
                assert forall|q: int| 0 <= q < done.len() implies (#[trigger] done[q]).id@ != e.id@ by {
                    assert(done[q] == orig[j + 1 + q]);
                }
                lemma_table_absent(done, e.id@);
                lemma_tick_prepend(table(done), e.id@, entry_view(e));
            }
            let ghost eid = e.id@;
            match tick_entry(e) {
                Some(t) => {
                    assert forall|q: int| 0 <= q < out@.len() implies (#[trigger] out@[q]).id@ != eid by {
                        lemma_table_find(out@, q);
                    }
                    let ghost before = out@;
                    out.push(t);
                    assert(out@.drop_last() =~= before);
                    assert(out@.last() == t);
                    assert forall|a: int, b: int|
                        0 <= a < out@.len() && 0 <= b < out@.len() && a != b implies (#[trigger] out@[a]).id@
                        != (#[trigger] out@[b]).id@ by {
                        if a < before.len() && b < before.len() {
                            assert(out@[a] == before[a]);
                            assert(out@[b] == before[b]);
                        } else if a < before.len() {
                            assert(out@[a] == before[a]);
                        } else if b < before.len() {
                            assert(out@[b] == before[b]);
                        }
                    }
                },
                None => {},
            }
            assert(pending@ =~= orig.take(pending@.len() as int));
        }
        assert(orig.subrange(0, orig.len() as int) =~= orig);
        self.entries = out;
        proof {
            self.lemma_wf_view();
        }
    }
}


/// The state after `n` time ticks.
pub open spec fn ticks_spec(m: Map<Seq<u8>, IdState>, n: nat) -> Map<Seq<u8>, IdState>
    decreases n,
{
    if n == 0 {
        m
    } else {
        time_tick_spec(ticks_spec(m, (n - 1) as nat))
    }
}

/// Feeding a fragment a second time right after the first changes nothing
/// and completes nothing: any number of copies act as one.
pub proof fn lemma_duplicate_idempotent(m: Map<Seq<u8>, IdState>, f: Seq<u8>)
    requires
        machine_wf(m),
    ensures
        ingest(ingest(m, f).0, f) == (ingest(m, f).0, None::<Seq<u8>>),
{
    let id = f.subrange(0, 8);
    let m1 = ingest(m, f).0;
    if fragment_ok(f) {
        if m.contains_key(id) && m[id] is Completed {
            assert(m1.insert(id, completed()) =~= m1);
        } else if m1.contains_key(id) && m1[id] is Completed {
            assert(m1.insert(id, completed()) =~= m1);
        } else if m.contains_key(id) {
            assert(state_wf(m[id]));
        }
    }
}

/// Once an id is completed, no fragment bearing it yields a message, and the
/// id stays completed.
pub proof fn lemma_replay_rejected(m: Map<Seq<u8>, IdState>, f: Seq<u8>)
    requires
        m.contains_key(f.subrange(0, 8)),
        m[f.subrange(0, 8)] is Completed,
    ensures
        ingest(m, f).1 is None,
        ingest(m, f).0.contains_key(f.subrange(0, 8)),
        ingest(m, f).0[f.subrange(0, 8)] is Completed,
{
}

/// A fragment that completes a message leaves its id completed, with a full
/// lifetime, so that the message cannot come out twice.
pub proof fn lemma_completion_marks_id(m: Map<Seq<u8>, IdState>, f: Seq<u8>)
    requires
        ingest(m, f).1 is Some,
    ensures
        ingest(m, f).0.contains_key(f.subrange(0, 8)),
        ingest(m, f).0[f.subrange(0, 8)] == completed(),
{
}

/// Fewer than `b` shares never suffice: a message comes out only of the
/// fragment that brings its id to `b` distinct shares, the earlier ones
/// being held by an assembling entry with the same framing.
pub proof fn lemma_completion_needs_b_shares(m: Map<Seq<u8>, IdState>, f: Seq<u8>)
    requires
        machine_wf(m),
        ingest(m, f).1 is Some,
    ensures
        fragment_ok(f),
        m.contains_key(f.subrange(0, 8)) ==> match m[f.subrange(0, 8)] {
            IdState::Assembling { ticks: _, b, share_len: _, slots } => b == f[8] && present_count(
                slots,
            ) == f[8] - 1 && slots[f[9] as int] is None,
            IdState::Completed { ticks: _ } => false,
        },
        !m.contains_key(f.subrange(0, 8)) ==> f[8] == 1,
{
    let id = f.subrange(0, 8);
    if m.contains_key(id) {
        assert(state_wf(m[id]));
        match m[id] {
            IdState::Assembling { ticks, b, share_len, slots } => {
                lemma_present_count_fill(slots, f[9] as int, f.subrange(10, f.len() - 8));
            },
            IdState::Completed { ticks } => {},
        }
    } else {
        lemma_present_count_empty((2 * f[8] - 1) as nat);
        lemma_present_count_fill(
            Seq::new((2 * f[8] - 1) as nat, |i: int| None::<Seq<u8>>),
            f[9] as int,
            f.subrange(10, f.len() - 8),
        );
    }
}

proof fn lemma_ticks_assembling(m: Map<Seq<u8>, IdState>, k: Seq<u8>, n: nat)
    requires
        m.contains_key(k),
        m[k] is Assembling,
        n < m[k]->Assembling_ticks,
    ensures
        ticks_spec(m, n).contains_key(k),
        ticks_spec(m, n)[k] == (match m[k] {
            IdState::Assembling { ticks, b, share_len, slots } => IdState::Assembling {
                ticks: (ticks - n) as nat,
                b,
                share_len,
                slots,
            },
            _ => m[k],
        }),
    decreases n,
{
    if n > 0 {
        lemma_ticks_assembling(m, k, (n - 1) as nat);
    }
}

proof fn lemma_ticks_expired(m: Map<Seq<u8>, IdState>, k: Seq<u8>, n: nat)
    requires
        m.contains_key(k),
        m[k] is Assembling,
        1 <= m[k]->Assembling_ticks <= n,
        n < m[k]->Assembling_ticks + MESSAGE_ID_TICKS,
    ensures
        ticks_spec(m, n).contains_key(k),
        ticks_spec(m, n)[k] == (IdState::Completed {
            ticks: (MESSAGE_ID_TICKS - (n - m[k]->Assembling_ticks)) as nat,
        }),
    decreases n,
{
    let t = m[k]->Assembling_ticks;
    if n == t {
        lemma_ticks_assembling(m, k, (n - 1) as nat);
    } else {
        lemma_ticks_expired(m, k, (n - 1) as nat);
    }
}

/// An assembly that gets no fragment for a full lifetime of ticks is dropped:
/// its id is then completed, so its late fragments are discarded until that
/// entry expires in turn.
pub proof fn lemma_ttl_eviction(m: Map<Seq<u8>, IdState>, k: Seq<u8>)
    requires
        machine_wf(m),
        m.contains_key(k),
        m[k] is Assembling,
    ensures
        ticks_spec(m, MESSAGE_ID_TICKS as nat).contains_key(k),
        ticks_spec(m, MESSAGE_ID_TICKS as nat)[k] is Completed,
{
    assert(state_wf(m[k]));
    lemma_ticks_expired(m, k, MESSAGE_ID_TICKS as nat);
}

/// The share carried by fragment `i` of `frags`.
pub open spec fn split_share(frags: Seq<Seq<u8>>, i: int) -> Seq<u8> {
    frags[i].subrange(10, frags[i].len() - 8)
}

/// The id `id` is unknown, or being assembled from shares of `frags`
/// (`b` needed), each at its own index.
pub open spec fn holds_split_shares(
    m: Map<Seq<u8>, IdState>,
    id: Seq<u8>,
    frags: Seq<Seq<u8>>,
    b: int,
) -> bool {
    !m.contains_key(id) || match m[id] {
        IdState::Assembling { ticks: _, b: eb, share_len, slots } => {
            &&& eb == b
            &&& share_len == frags[0].len() - FIELDS_LEN
            &&& slots.len() == frags.len()
            &&& present_count(slots) < b
            &&& forall|k: int|
                0 <= k < slots.len() && (#[trigger] slots[k]) is Some ==> slots[k]->0 == split_share(
                    frags,
                    k,
                )
        },
        IdState::Completed { ticks: _ } => false,
    }
}

/// The state after the first `j` fragments of `fs`, with no time tick.
pub open spec fn state_after(m0: Map<Seq<u8>, IdState>, fs: Seq<Seq<u8>>, j: nat) -> Map<
    Seq<u8>,
    IdState,
>
    decreases j,
{
    if j == 0 {
        m0
    } else {
        ingest(state_after(m0, fs, (j - 1) as nat), fs[j - 1]).0
    }
}

proof fn lemma_present_shares(s: Seq<Option<Seq<u8>>>)
    requires
        s.len() <= 256,
    ensures
        present_shares(s).len() == present_count(s),
        forall|q: int|
            0 <= q < present_shares(s).len() ==> 0 <= (#[trigger] present_shares(s)[q]).0 < s.len()
                && s[present_shares(s)[q].0 as int] == Some(present_shares(s)[q].1),
        forall|q1: int, q2: int|
            0 <= q1 < q2 < present_shares(s).len() ==> (#[trigger] present_shares(s)[q1]).0
                < (#[trigger] present_shares(s)[q2]).0,
    decreases s.len(),
{
    if s.len() > 0 {
        let r = s.drop_last();
        lemma_present_shares(r);
        let k = s.len() - 1;
        assert(((k as int) as u8) as int == k);
        assert forall|j: int| 0 <= j < r.len() implies r[j] == s[j] by {}
    }
}

proof fn lemma_other_id(m: Map<Seq<u8>, IdState>, f: Seq<u8>, id: Seq<u8>)
    requires
        f.subrange(0, 8) != id,
    ensures
        ingest(m, f).0.contains_key(id) == m.contains_key(id),
        m.contains_key(id) ==> ingest(m, f).0[id] == m[id],
{
}

proof fn lemma_split_step(m: Map<Seq<u8>, IdState>, msg: Seq<u8>, nonce: Seq<u8>, d: int, i: int)
    requires
        nonce.len() == NONCE_LEN,
        FIELDS_LEN < d,
        msg.len() <= max_message_spec(d),
        0 <= i < split_message_spec(msg, nonce, d).len(),
        holds_split_shares(
            m,
            split_message_spec(msg, nonce, d)[0].subrange(0, 8),
            split_message_spec(msg, nonce, d),
            num_shares(msg.len() as int, d),
        ),
    ensures
        ({
            let frags = split_message_spec(msg, nonce, d);
            let id = frags[0].subrange(0, 8);
            let f = frags[i];
            &&& fragment_ok(f)
            &&& f.subrange(0, 8) == id
            &&& completes(m, f) ==> shares_of_split(id, completing_shares(m, f), msg, nonce, d)
            &&& !completes(m, f) ==> ingest(m, f).1 is None && holds_split_shares(
                ingest(m, f).0,
                id,
                frags,
                num_shares(msg.len() as int, d),
            )
        }),
{
    let frags = split_message_spec(msg, nonce, d);
    let b = num_shares(msg.len() as int, d);
    let t = padded_payload(msg, nonce, d);
    let parts = split_data_spec(t, b as nat);
    let sid = short_hash_spec(t);
    lemma_split_shape(msg, nonce, d);
    let id = frags[0].subrange(0, 8);
    let f = frags[i];
    let head = sid + seq![b as u8, i as u8] + parts[i];
    assert(f == fragment_spec(sid, b as u8, i as u8, parts[i]));
    assert(f == head + short_hash_spec(head));
    assert(f.subrange(0, f.len() - 8) =~= head);
    assert(f.subrange(f.len() - 8, f.len() as int) =~= short_hash_spec(head));
    assert(hash_matches(f));
    assert(f.subrange(0, 8) =~= sid);
    assert(frags[0] == fragment_spec(sid, b as u8, 0u8, parts[0]));
    assert(frags[0].subrange(0, 8) =~= sid);
    assert(f[8] == b as u8 && f[9] == i as u8);
    assert(fragment_ok(f));
    assert forall|k: int| 0 <= k < frags.len() implies #[trigger] split_share(frags, k) == parts[k] by {
        let hk = sid + seq![b as u8, k as u8] + parts[k];
        assert(frags[k] == hk + short_hash_spec(hk));
        assert(split_share(frags, k) =~= parts[k]);
    }
    assert(f.subrange(10, f.len() - 8) == split_share(frags, i));
    let prior = prior_slots(m, f);
    let filled = filled_slots(m, f);
    assert(prior.len() == frags.len());
    if adds_share(m, f) {
        lemma_present_count_fill(prior, i, split_share(frags, i));
        if !m.contains_key(id) {
            lemma_present_count_empty((2 * f[8] - 1) as nat);
        }
        assert forall|k: int| 0 <= k < filled.len() && (#[trigger] filled[k]) is Some implies filled[k]->0
            == split_share(frags, k) by {
            if k != i {
                assert(filled[k] == prior[k]);
            }
        }
        if completes(m, f) {
            let sh = completing_shares(m, f);
            lemma_present_shares(filled);
            assert(present_count(filled) == b);
            assert(distinct_indices(sh)) by {
                assert forall|q1: int, q2: int|
                    0 <= q1 < sh.len() && 0 <= q2 < sh.len() && q1 != q2 implies (#[trigger] sh[q1]).0
                    != (#[trigger] sh[q2]).0 by {
                    if q1 < q2 {
                        assert(sh[q1].0 < sh[q2].0);
                    } else {
                        assert(sh[q2].0 < sh[q1].0);
                    }
                }
            }
            assert forall|q: int| 0 <= q < sh.len() implies (#[trigger] sh[q]).0 < frags.len() && sh[q].1
                == frags[sh[q].0 as int].subrange(10, frags[sh[q].0 as int].len() - 8) by {
                assert(filled[sh[q].0 as int] == Some(sh[q].1));
            }
            assert(shares_of_split(id, sh, msg, nonce, d));
        } else {
            assert(holds_split_shares(ingest(m, f).0, id, frags, b));
        }
    }
}

/// Erasure threshold over a run: start from a state that does not know the
/// id of the fragments of `split_message(msg, nonce, d)`, and feed fragments
/// of that split (`fs[q] == frags[sel[q]]`, repeats allowed) and of other ids
/// (`sel[q] < 0`), with no time tick. Until the id is completed, it is being
/// assembled from shares of the split, one per index, fewer than `b`, and
/// every fragment of it yields nothing; the fragment that completes it does
/// so from `b` distinct shares of the split, on which `received_frag_message`
/// returns `msg`.
pub proof fn lemma_split_run(
    m0: Map<Seq<u8>, IdState>,
    fs: Seq<Seq<u8>>,
    sel: Seq<int>,
    msg: Seq<u8>,
    nonce: Seq<u8>,
    d: int,
    j: nat,
)
    requires
        nonce.len() == NONCE_LEN,
        FIELDS_LEN < d,
        msg.len() <= max_message_spec(d),
        !m0.contains_key(split_message_spec(msg, nonce, d)[0].subrange(0, 8)),
        sel.len() == fs.len(),
        j < fs.len(),
        forall|q: int|
            0 <= q < fs.len() ==> ((0 <= #[trigger] sel[q] < split_message_spec(msg, nonce, d).len()
                && fs[q] == split_message_spec(msg, nonce, d)[sel[q]]) || (sel[q] < 0 && fs[q].subrange(0, 8)
                != split_message_spec(msg, nonce, d)[0].subrange(0, 8))),
        forall|q: int|
            0 <= q < j && sel[q] >= 0 ==> !completes(state_after(m0, fs, q as nat), #[trigger] fs[q]),
    ensures
        ({
            let frags = split_message_spec(msg, nonce, d);
            let id = frags[0].subrange(0, 8);
            let m = state_after(m0, fs, j);
            &&& holds_split_shares(m, id, frags, num_shares(msg.len() as int, d))
            &&& sel[j as int] >= 0 && !completes(m, fs[j as int]) ==> ingest(m, fs[j as int]).1 is None
            &&& sel[j as int] >= 0 && completes(m, fs[j as int]) ==> shares_of_split(
                id,
                completing_shares(m, fs[j as int]),
                msg,
                nonce,
                d,
            )
        }),
    decreases j,
{
    let frags = split_message_spec(msg, nonce, d);
    let id = frags[0].subrange(0, 8);
    let b = num_shares(msg.len() as int, d);
    if j > 0 {
        let q = (j - 1) as int;
        lemma_split_run(m0, fs, sel, msg, nonce, d, (j - 1) as nat);
        let prev = state_after(m0, fs, (j - 1) as nat);
        assert(state_after(m0, fs, j) == ingest(prev, fs[q]).0);
        if sel[q] >= 0 {
            lemma_split_step(prev, msg, nonce, d, sel[q]);
        } else {
            lemma_other_id(prev, fs[q], id);
        }
    }
    let m = state_after(m0, fs, j);
    if sel[j as int] >= 0 {
        lemma_split_step(m, msg, nonce, d, sel[j as int]);
    }
}

} // verus!

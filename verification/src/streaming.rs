use vstd::prelude::*;

use std::collections::HashSet;

use crate::types::{Address, Height, ProposalInit, ProposalPart, Round};

verus! {

broadcast use vstd::std_specs::hash::group_hash_axioms;

/// The position of a message in its stream.
pub type Sequence = u64;

/// Identifies a stream among those of one peer.
pub type StreamId = u64;

/// Identifies a peer by the bytes of its multihash.
#[derive(Clone, Debug, PartialEq, Eq)]
pub struct PeerId(pub Vec<u8>);

/// What a stream message carries: a piece of data, or the end of the stream.
#[derive(Clone, Debug, PartialEq, Eq)]
pub enum StreamContent<T> {
    Data(T),
    Fin,
}

impl<T> StreamContent<T> {
    /// The data carried, if any.
    pub fn as_data(&self) -> (data: Option<&T>)
        ensures
            match *self {
                StreamContent::Data(t) => data == Some(&t),
                StreamContent::Fin => data is None,
            },
    {
        match self {
            StreamContent::Data(t) => Some(t),
            StreamContent::Fin => None,
        }
    }

    /// The data carried, if any, taken out of the content.
    pub fn into_data(self) -> (data: Option<T>)
        ensures
            data == spec_data(self),
    {
        match self {
            StreamContent::Data(t) => Some(t),
            StreamContent::Fin => None,
        }
    }
}

pub open spec fn spec_data<T>(content: StreamContent<T>) -> Option<T> {
    match content {
        StreamContent::Data(t) => Some(t),
        StreamContent::Fin => None,
    }
}

/// A message of a stream: its stream, its position in it, and its content.
#[derive(Clone, Debug, PartialEq, Eq)]
pub struct StreamMessage<T> {
    pub stream_id: StreamId,
    pub sequence: Sequence,
    pub content: StreamContent<T>,
}

impl<T> StreamMessage<T> {
    /// Whether this is the first message of its stream.
    pub fn is_first(&self) -> (first: bool)
        ensures
            first == (self.sequence == 0),
    {
        self.sequence == 0
    }

    /// Whether this message ends its stream.
    pub fn is_fin(&self) -> (fin: bool)
        ensures
            fin == (self.content is Fin),
    {
        match self.content {
            StreamContent::Fin => true,
            StreamContent::Data(_) => false,
        }
    }
}

/// Messages ordered by sequence number, lowest first (equal numbers keep
/// the order in which they came).
pub open spec fn sorted_by_sequence<T>(s: Seq<StreamMessage<T>>) -> bool {
    forall|i: int, j: int| 0 <= i <= j < s.len() ==> s[i].sequence <= s[j].sequence
}

/// `s` with `m` placed after every message whose sequence number is at most
/// that of `m`, and before the others.
pub open spec fn insert_by_sequence<T>(s: Seq<StreamMessage<T>>, m: StreamMessage<T>) -> Seq<
    StreamMessage<T>,
>
    decreases s.len(),
{
    if s.len() == 0 {
        seq![m]
    } else if m.sequence < s[0].sequence {
        seq![m] + s
    } else {
        seq![s[0]] + insert_by_sequence(s.drop_first(), m)
    }
}

/// The data carried by the messages of `s`, in the order of `s`; end-of-stream
/// messages carry none.
pub open spec fn data_contents<T>(s: Seq<StreamMessage<T>>) -> Seq<T>
    decreases s.len(),
{
    if s.len() == 0 {
        Seq::empty()
    } else {
        match s[0].content {
            StreamContent::Data(t) => seq![t] + data_contents(s.drop_first()),
            StreamContent::Fin => data_contents(s.drop_first()),
        }
    }
}

/// The data of a single message: its payload when it carries data, nothing
/// when it ends the stream.
pub proof fn lemma_data_contents_single<T>(m: StreamMessage<T>)
    ensures
        data_contents(seq![m]) == match m.content {
            StreamContent::Data(t) => seq![t],
            StreamContent::Fin => Seq::<T>::empty(),
        },
{
    let s = seq![m];
    assert(s.len() == 1 && s[0] == m);
    assert(s.drop_first() =~= Seq::<StreamMessage<T>>::empty());
    assert(data_contents(s.drop_first()) == Seq::<T>::empty());
    match m.content {
        StreamContent::Data(t) => {
            assert(data_contents(s) == seq![t] + Seq::<T>::empty());
            assert(seq![t] + Seq::<T>::empty() =~= seq![t]);
        },
        StreamContent::Fin => {},
    }
}

/// The data of messages one after another is the data of each in turn: no
/// message's data is dropped, doubled or moved.
pub proof fn lemma_data_contents_append<T>(s1: Seq<StreamMessage<T>>, s2: Seq<StreamMessage<T>>)
    ensures
        data_contents(s1 + s2) == data_contents(s1) + data_contents(s2),
    decreases s1.len(),
{
    if s1.len() == 0 {
        assert(s1 + s2 =~= s2);
    } else {
        lemma_data_contents_append(s1.drop_first(), s2);
        assert((s1 + s2).drop_first() =~= s1.drop_first() + s2);
        assert((s1 + s2)[0] == s1[0]);
        match s1[0].content {
            StreamContent::Data(t) => {
                assert(seq![t] + (data_contents(s1.drop_first()) + data_contents(s2)) =~= (seq![t]
                    + data_contents(s1.drop_first())) + data_contents(s2));
            },
            StreamContent::Fin => {},
        }
    }
}

/// The data of a buffer holds one payload per data-carrying message, in the
/// buffer's order: the number of payloads is the number of such messages,
/// and every data-carrying message's payload is among them.
pub proof fn lemma_data_contents_counts<T>(s: Seq<StreamMessage<T>>)
    ensures
        data_contents(s).len() == s.filter(|m: StreamMessage<T>| m.content is Data).len(),
        forall|i: int|
            0 <= i < s.len() && (#[trigger] s[i]).content is Data ==> data_contents(s).contains(
                s[i].content->Data_0,
            ),
    decreases s.len(),
{
    broadcast use vstd::seq_lib::group_filter_ensures;

    if s.len() > 0 {
        let init = s.drop_last();
        let last = s.last();
        lemma_data_contents_counts(init);
        assert(init + seq![last] =~= s);
        lemma_data_contents_append(init, seq![last]);
        lemma_data_contents_single(last);
        reveal(Seq::filter);
        assert(s.filter(|m: StreamMessage<T>| m.content is Data) == {
            let rest = init.filter(|m: StreamMessage<T>| m.content is Data);
            if last.content is Data {
                rest.push(last)
            } else {
                rest
            }
        });
        assert forall|i: int| 0 <= i < s.len() && (#[trigger] s[i]).content is Data implies data_contents(
            s,
        ).contains(s[i].content->Data_0) by {
            if i < init.len() {
                assert(s[i] == init[i]);
                let j = choose|j: int|
                    0 <= j < data_contents(init).len() && data_contents(init)[j]
                        == init[i].content->Data_0;
                assert(data_contents(s)[j] == data_contents(init)[j]);
            } else {
                assert(s[i] == last);
                let d = data_contents(init).len() as int;
                assert(data_contents(s)[d] == last.content->Data_0);
            }
        }
    }
}

proof fn lemma_insert_by_sequence_lower_bound<T>(s: Seq<StreamMessage<T>>, m: StreamMessage<T>, lo: u64)
    requires
        lo <= m.sequence,
        forall|i: int| 0 <= i < s.len() ==> lo <= #[trigger] s[i].sequence,
    ensures
        insert_by_sequence(s, m).len() == s.len() + 1,
        forall|i: int|
            0 <= i < insert_by_sequence(s, m).len() ==> lo <= #[trigger] insert_by_sequence(
                s,
                m,
            )[i].sequence,
    decreases s.len(),
{
    if s.len() > 0 && m.sequence >= s[0].sequence {
        lemma_insert_by_sequence_lower_bound(s.drop_first(), m, lo);
    }
}

/// Placing a message by its sequence number keeps a sorted buffer sorted.
pub proof fn lemma_insert_by_sequence_sorted<T>(s: Seq<StreamMessage<T>>, m: StreamMessage<T>)
    requires
        sorted_by_sequence(s),
    ensures
        sorted_by_sequence(insert_by_sequence(s, m)),
        insert_by_sequence(s, m).len() == s.len() + 1,
    decreases s.len(),
{
    lemma_insert_by_sequence_lower_bound(s, m, 0);
    if s.len() > 0 && m.sequence >= s[0].sequence {
        let rest = s.drop_first();
        lemma_insert_by_sequence_sorted(rest, m);
        lemma_insert_by_sequence_lower_bound(rest, m, s[0].sequence);
        let r = insert_by_sequence(s, m);
        let rr = insert_by_sequence(rest, m);
        assert forall|i: int, j: int| 0 <= i <= j < r.len() implies r[i].sequence
            <= r[j].sequence by {
            if i > 0 {
                assert(r[i] == rr[i - 1]);
                assert(r[j] == rr[j - 1]);
            } else {
                assert(r[i] == s[0]);
                if j > 0 {
                    assert(r[j] == rr[j - 1]);
                }
            }
        }
    }
}

/// Messages kept in ascending order of sequence number; drained lowest first.
struct MinHeap<T> {
    items: Vec<StreamMessage<T>>,
}

impl<T> View for MinHeap<T> {
    type V = Seq<StreamMessage<T>>;

    closed spec fn view(&self) -> Seq<StreamMessage<T>> {
        self.items@
    }
}

impl<T> MinHeap<T> {
    spec fn wf(&self) -> bool {
        sorted_by_sequence(self@)
    }

    fn new() -> (heap: Self)
        ensures
            heap@ == Seq::<StreamMessage<T>>::empty(),
            heap.wf(),
    {
        MinHeap { items: Vec::new() }
    }

    fn push(&mut self, msg: StreamMessage<T>)
        requires
            old(self).wf(),
        ensures
            final(self)@ == insert_by_sequence(old(self)@, msg),
            final(self).wf(),
    {
        let ghost s = self@;
        let n = self.items.len();
        let mut k: usize = 0;
        assert(s.skip(0) =~= s);
        assert(s.take(0) + insert_by_sequence(s, msg) =~= insert_by_sequence(s, msg));
        while k < n && self.items[k].sequence <= msg.sequence
            invariant
                k <= n,
                n == s.len(),
                self@ == s,
                insert_by_sequence(s, msg) == s.take(k as int) + insert_by_sequence(
                    s.skip(k as int),
                    msg,
                ),
            decreases n - k,
        {
            let ghost t = s.skip(k as int);
            assert(t.drop_first() =~= s.skip(k + 1));
            assert(s.take(k as int) + seq![t[0]] =~= s.take(k + 1));
            assert(insert_by_sequence(t, msg) == seq![t[0]] + insert_by_sequence(
                t.drop_first(),
                msg,
            ));
            assert(s.take(k as int) + insert_by_sequence(t, msg) =~= s.take(k + 1)
                + insert_by_sequence(s.skip(k + 1), msg));
            k = k + 1;
        }
        proof {
            if k == n {
                assert(s.skip(k as int) =~= Seq::<StreamMessage<T>>::empty());
            }
            assert(s.take(k as int) + insert_by_sequence(s.skip(k as int), msg) =~= s.insert(
                k as int,
                msg,
            ));
            lemma_insert_by_sequence_sorted(s, msg);
        }
        self.items.insert(k, msg);
    }

    fn len(&self) -> (n: usize)
        ensures
            n == self@.len(),
    {
        self.items.len()
    }

    fn drain(&mut self) -> (data: Vec<T>)
        ensures
            data@ == data_contents(old(self)@),
            final(self)@ == Seq::<StreamMessage<T>>::empty(),
            final(self).wf(),
    {
        let ghost orig = self@;
        let mut items: Vec<StreamMessage<T>> = Vec::new();
        std::mem::swap(&mut items, &mut self.items);
        let mut data: Vec<T> = Vec::new();
        while items.len() > 0
            invariant
                data_contents(orig) == data@ + data_contents(items@),
            decreases items.len(),
        {
            let ghost before = items@;
            let msg = items.remove(0);
            assert(items@ =~= before.drop_first());
            match msg.content.into_data() {
                Some(t) => {
                    data.push(t);
                    assert(data_contents(before) == seq![t] + data_contents(items@));
                },
                None => {},
            }
        }
        assert(data@ + data_contents(items@) =~= data@);
        data
    }
}


/// A proposal put back together from the parts of its stream.
#[derive(Clone, Debug, PartialEq, Eq)]
pub struct ProposalParts {
    pub height: Height,
    pub round: Round,
    pub proposer: Address,
    pub parts: Vec<ProposalPart>,
}

/// What the reassembly of one stream has gathered so far.
pub struct StreamModel {
    /// The messages received, in ascending order of sequence number.
    pub buffer: Seq<StreamMessage<ProposalPart>>,
    /// The proposal's init part, taken from the message numbered 0.
    pub init_info: Option<ProposalInit>,
    /// The sequence numbers received so far.
    pub seen_sequences: Set<Sequence>,
    /// How many messages the stream has, once its end is known.
    pub total_messages: nat,
    /// Whether the end-of-stream message has come.
    pub fin_received: bool,
}

/// A stream of which nothing has been received.
pub open spec fn initial_stream() -> StreamModel {
    StreamModel {
        buffer: Seq::empty(),
        init_info: None,
        seen_sequences: Set::empty(),
        total_messages: 0,
        fin_received: false,
    }
}

/// The init part that a message carries, if it carries one.
pub open spec fn init_of(msg: StreamMessage<ProposalPart>) -> Option<ProposalInit> {
    match msg.content {
        StreamContent::Data(part) => part.spec_init(),
        StreamContent::Fin => None,
    }
}

/// A stream's record once `msg` has been taken in: the message numbered 0
/// sets the init part (to none if it carries none), an end-of-stream message
/// fixes the number of messages at its sequence number plus one, and the
/// message joins the buffer in its place.
pub open spec fn stream_push(st: StreamModel, msg: StreamMessage<ProposalPart>) -> StreamModel {
    let init_info = if msg.sequence == 0 {
        init_of(msg)
    } else {
        st.init_info
    };
    let fin = msg.content is Fin;
    StreamModel {
        buffer: insert_by_sequence(st.buffer, msg),
        init_info,
        seen_sequences: st.seen_sequences,
        total_messages: if fin {
            (msg.sequence + 1) as nat
        } else {
            st.total_messages
        },
        fin_received: fin || st.fin_received,
    }
}

/// A stream is complete when its init part and its end are known and as many
/// messages as the end announced are buffered.
pub open spec fn stream_is_done(st: StreamModel) -> bool {
    &&& st.init_info is Some
    &&& st.fin_received
    &&& st.buffer.len() == st.total_messages
}

/// A stream's record after `msg`: once complete, its buffer is emptied and
/// its init part handed out.
pub open spec fn stream_after(st: StreamModel, msg: StreamMessage<ProposalPart>) -> StreamModel {
    let pushed = stream_push(st, msg);
    if stream_is_done(pushed) {
        StreamModel { buffer: Seq::empty(), init_info: None, ..pushed }
    } else {
        pushed
    }
}

/// What `msg` completes: the init part and the data of all buffered
/// messages in ascending order of sequence number, or nothing while the
/// stream is incomplete.
pub open spec fn stream_output(st: StreamModel, msg: StreamMessage<ProposalPart>) -> Option<
    (ProposalInit, Seq<ProposalPart>),
> {
    let pushed = stream_push(st, msg);
    if stream_is_done(pushed) {
        Some((pushed.init_info->0, data_contents(pushed.buffer)))
    } else {
        None
    }
}

/// `result` is the proposal that `out` describes.
pub open spec fn proposal_matches(
    result: Option<ProposalParts>,
    out: Option<(ProposalInit, Seq<ProposalPart>)>,
) -> bool {
    match (result, out) {
        (Some(p), Some((init, parts))) => {
            &&& p.height == init.height
            &&& p.round == init.round
            &&& p.proposer == init.proposer
            &&& p.parts@ == parts
        },
        (None, None) => true,
        _ => false,
    }
}

/// The reassembly state of one stream.
struct StreamState {
    buffer: MinHeap<ProposalPart>,
    init_info: Option<ProposalInit>,
    seen_sequences: HashSet<Sequence>,
    total_messages: usize,
    fin_received: bool,
}

impl View for StreamState {
    type V = StreamModel;

    closed spec fn view(&self) -> StreamModel {
        StreamModel {
            buffer: self.buffer@,
            init_info: self.init_info,
            seen_sequences: self.seen_sequences@,
            total_messages: self.total_messages as nat,
            fin_received: self.fin_received,
        }
    }
}

impl StreamState {
    spec fn wf(&self) -> bool {
        self.buffer.wf()
    }

    fn new() -> (state: Self)
        ensures
            state@ == initial_stream(),
            state.wf(),
    {
        StreamState {
            buffer: MinHeap::new(),
            init_info: None,
            seen_sequences: HashSet::new(),
            total_messages: 0,
            fin_received: false,
        }
    }

    fn is_done(&self) -> (done: bool)
        ensures
            done == stream_is_done(self@),
    {
        self.init_info.is_some() && self.fin_received && self.buffer.len() == self.total_messages
    }

    fn insert(&mut self, msg: StreamMessage<ProposalPart>) -> (result: Option<ProposalParts>)
        requires
            old(self).wf(),
            msg.content is Fin ==> msg.sequence < usize::MAX,
        ensures
            final(self).wf(),
            final(self)@ == stream_after(old(self)@, msg),
            proposal_matches(result, stream_output(old(self)@, msg)),
    {
        if msg.is_first() {
            self.init_info = match msg.content.as_data() {
                Some(part) => match part.as_init() {
                    Some(init) => Some(*init),
                    None => None,
                },
                None => None,
            };
        }
        if msg.is_fin() {
            self.fin_received = true;
            self.total_messages = msg.sequence as usize + 1;
        }
        self.buffer.push(msg);
        if self.is_done() {
            let init_info = match self.init_info {
                Some(init) => init,
                None => return None,
            };
            self.init_info = None;
            Some(
                ProposalParts {
                    height: init_info.height,
                    round: init_info.round,
                    proposer: init_info.proposer,
                    parts: self.buffer.drain(),
                },
            )
        } else {
            None
        }
    }
}


/// Whether two byte strings are equal.
fn bytes_equal(a: &Vec<u8>, b: &Vec<u8>) -> (eq: bool)
    ensures
        eq == (a@ == b@),
{
    if a.len() != b.len() {
        return false;
    }
    let mut i: usize = 0;
    while i < a.len()
        invariant
            a.len() == b.len(),
            i <= a.len(),
            forall|j: int| 0 <= j < i ==> a@[j] == b@[j],
        decreases a.len() - i,
    {
        if a[i] != b[i] {
            return false;
        }
        i = i + 1;
    }
    assert(a@ =~= b@);
    true
}

/// The key under which a stream is kept: its peer's bytes and its stream id.
pub type StreamKey = (Seq<u8>, StreamId);

pub open spec fn stream_key(peer_id: PeerId, stream_id: StreamId) -> StreamKey {
    (peer_id.0@, stream_id)
}

/// The record of stream `key` in `streams`, or that of a fresh stream.
pub open spec fn current_stream(streams: Map<StreamKey, StreamModel>, key: StreamKey) -> StreamModel {
    if streams.contains_key(key) {
        streams[key]
    } else {
        initial_stream()
    }
}

/// Every stream's buffer is in ascending order of sequence number.
pub open spec fn buffers_sorted(streams: Map<StreamKey, StreamModel>) -> bool {
    forall|k: StreamKey| #[trigger] streams.contains_key(k) ==> sorted_by_sequence(streams[k].buffer)
}

struct StreamEntry {
    peer_id: PeerId,
    stream_id: StreamId,
    state: StreamState,
}

spec fn entry_key(e: StreamEntry) -> StreamKey {
    stream_key(e.peer_id, e.stream_id)
}

spec fn keys_distinct(s: Seq<StreamEntry>) -> bool {
    forall|i: int, j: int|
        0 <= i < s.len() && 0 <= j < s.len() && i != j ==> entry_key(#[trigger] s[i]) != entry_key(
            #[trigger] s[j],
        )
}

spec fn has_key(s: Seq<StreamEntry>, k: StreamKey) -> bool {
    exists|i: int| 0 <= i < s.len() && entry_key(#[trigger] s[i]) == k
}

spec fn index_of(s: Seq<StreamEntry>, k: StreamKey) -> int {
    choose|i: int| 0 <= i < s.len() && entry_key(#[trigger] s[i]) == k
}

spec fn streams_view(s: Seq<StreamEntry>) -> Map<StreamKey, StreamModel> {
    Map::new(|k: StreamKey| has_key(s, k), |k: StreamKey| s[index_of(s, k)].state@)
}

proof fn lemma_view_at(s: Seq<StreamEntry>, i: int)
    requires
        keys_distinct(s),
        0 <= i < s.len(),
    ensures
        streams_view(s).contains_key(entry_key(s[i])),
        streams_view(s)[entry_key(s[i])] == s[i].state@,
{
    let k = entry_key(s[i]);
    assert(has_key(s, k));
    let j = index_of(s, k);
    assert(entry_key(s[j]) == k);
}

proof fn lemma_view_remove(s: Seq<StreamEntry>, i: int)
    requires
        keys_distinct(s),
        0 <= i < s.len(),
    ensures
        keys_distinct(s.remove(i)),
        streams_view(s.remove(i)) =~= streams_view(s).remove(entry_key(s[i])),
{
    let r = s.remove(i);
    let k = entry_key(s[i]);
    assert forall|a: int, b: int|
        0 <= a < r.len() && 0 <= b < r.len() && a != b implies entry_key(#[trigger] r[a])
        != entry_key(#[trigger] r[b]) by {
        let a0 = if a < i { a } else { a + 1 };
        let b0 = if b < i { b } else { b + 1 };
        assert(r[a] == s[a0]);
        assert(r[b] == s[b0]);
    }
    assert forall|key: StreamKey| has_key(r, key) <==> (has_key(s, key) && key != k) by {
        if has_key(r, key) {
            let a = choose|a: int| 0 <= a < r.len() && entry_key(#[trigger] r[a]) == key;
            let a0 = if a < i { a } else { a + 1 };
            assert(r[a] == s[a0]);
            assert(entry_key(s[a0]) == key);
        }
        if has_key(s, key) && key != k {
            let a0 = choose|a: int| 0 <= a < s.len() && entry_key(#[trigger] s[a]) == key;
            let a = if a0 < i { a0 } else { a0 - 1 };
            assert(a0 != i);
            assert(r[a] == s[a0]);
            assert(entry_key(r[a]) == key);
        }
    }
    assert forall|key: StreamKey| #[trigger]
        streams_view(r).contains_key(key) implies streams_view(r)[key] == streams_view(s)[key] by {
        let a = index_of(r, key);
        assert(entry_key(r[a]) == key);
        let a0 = if a < i { a } else { a + 1 };
        assert(r[a] == s[a0]);
        lemma_view_at(s, a0);
    }
}

proof fn lemma_view_push(s: Seq<StreamEntry>, e: StreamEntry)
    requires
        keys_distinct(s),
        !has_key(s, entry_key(e)),
    ensures
        keys_distinct(s.push(e)),
        streams_view(s.push(e)) =~= streams_view(s).insert(entry_key(e), e.state@),
{
    let p = s.push(e);
    let n = s.len() as int;
    assert forall|a: int, b: int|
        0 <= a < p.len() && 0 <= b < p.len() && a != b implies entry_key(#[trigger] p[a])
        != entry_key(#[trigger] p[b]) by {
        if a < n && b < n {
            assert(p[a] == s[a] && p[b] == s[b]);
        } else if a < n {
            assert(p[a] == s[a]);
        } else {
            assert(p[b] == s[b]);
        }
    }
    assert forall|key: StreamKey| has_key(p, key) <==> (has_key(s, key) || key == entry_key(e)) by {
        if has_key(p, key) {
            let a = choose|a: int| 0 <= a < p.len() && entry_key(#[trigger] p[a]) == key;
            if a < n {
                assert(p[a] == s[a]);
            }
        }
        if has_key(s, key) {
            let a = choose|a: int| 0 <= a < s.len() && entry_key(#[trigger] s[a]) == key;
            assert(p[a] == s[a]);
        }
        if key == entry_key(e) {
            assert(p[n] == e);
        }
    }
    assert forall|key: StreamKey| #[trigger]
        streams_view(p).contains_key(key) implies streams_view(p)[key] == streams_view(s).insert(
        entry_key(e),
        e.state@,
    )[key] by {
        let a = index_of(p, key);
        assert(entry_key(p[a]) == key);
        lemma_view_at(p, a);
        if a < n {
            assert(p[a] == s[a]);
            lemma_view_at(s, a);
        } else {
            assert(p[a] == e);
        }
    }
}

/// Reassembles the proposals that peers stream in parts, one stream per
/// peer and stream id.
///
/// The streams are kept in a vector with no key twice, searched by key,
/// rather than in a `BTreeMap`: vstd's `BTreeMap` specifications hold only
/// for key types whose order obeys its comparison laws
/// (`key_obeys_cmp_spec`), which vstd establishes for integers and tuples of
/// them but not for the byte vector that a peer's key holds. The vector's
/// contents are specified in full, and only lookups by key are made, so the
/// order of the streams plays no part.
pub struct PartStreamsMap {
    streams: Vec<StreamEntry>,
}

impl View for PartStreamsMap {
    type V = Map<StreamKey, StreamModel>;

    closed spec fn view(&self) -> Map<StreamKey, StreamModel> {
        streams_view(self.streams@)
    }
}

impl PartStreamsMap {
    #[verifier::type_invariant]
    spec fn inv(&self) -> bool {
        &&& keys_distinct(self.streams@)
        &&& forall|i: int| 0 <= i < self.streams@.len() ==> (#[trigger] self.streams@[i]).state.wf()
    }

    proof fn lemma_buffers_sorted(s: Seq<StreamEntry>)
        requires
            keys_distinct(s),
            forall|i: int| 0 <= i < s.len() ==> (#[trigger] s[i]).state.wf(),
        ensures
            buffers_sorted(streams_view(s)),
    {
        assert forall|k: StreamKey| #[trigger] streams_view(s).contains_key(k) implies sorted_by_sequence(
            streams_view(s)[k].buffer,
        ) by {
            let a = index_of(s, k);
            assert(entry_key(s[a]) == k);
            assert(s[a].state.wf());
        }
    }

    /// A map with no streams.
    pub fn new() -> (map: Self)
        ensures
            map@ == Map::<StreamKey, StreamModel>::empty(),
    {
        let map = PartStreamsMap { streams: Vec::new() };
        assert(map@ =~= Map::<StreamKey, StreamModel>::empty());
        map
    }

    fn find_stream(streams: &Vec<StreamEntry>, peer_id: &PeerId, stream_id: StreamId) -> (found:
        Option<usize>)
        ensures
            match found {
                Some(i) => i < streams@.len() && entry_key(streams@[i as int]) == stream_key(
                    *peer_id,
                    stream_id,
                ),
                None => !has_key(streams@, stream_key(*peer_id, stream_id)),
            },
    {
        let mut i: usize = 0;
        while i < streams.len()
            invariant
                i <= streams@.len(),
                forall|j: int|
                    0 <= j < i ==> entry_key(#[trigger] streams@[j]) != stream_key(
                        *peer_id,
                        stream_id,
                    ),
            decreases streams@.len() - i,
        {
            if streams[i].stream_id == stream_id && bytes_equal(&streams[i].peer_id.0, &peer_id.0) {
                return Some(i);
            }
            i = i + 1;
        }
        None
    }

    /// Takes in a message of `peer_id`'s stream. A message whose sequence
    /// number that stream has already seen is ignored. Otherwise the message
    /// joins the stream, and when it completes the stream the proposal is
    /// returned: its height, round and proposer from the init part, and the
    /// data of the stream's messages in ascending order of sequence number.
    /// The number of messages an end-of-stream message announces (its
    /// sequence number plus one) must fit in a `usize`.
    pub fn insert(&mut self, peer_id: PeerId, msg: StreamMessage<ProposalPart>) -> (result: Option<
        ProposalParts,
    >)
        requires
            msg.content is Fin ==> msg.sequence < usize::MAX,
        ensures
            ({
                let key = stream_key(peer_id, msg.stream_id);
                let st = current_stream(old(self)@, key);
                if st.seen_sequences.contains(msg.sequence) {
                    &&& result is None
                    &&& final(self)@ == old(self)@
                } else {
                    let accepted = StreamModel {
                        seen_sequences: st.seen_sequences.insert(msg.sequence),
                        ..st
                    };
                    let after = stream_after(accepted, msg);
                    &&& proposal_matches(result, stream_output(accepted, msg))
                    &&& final(self)@ == if stream_is_done(after) {
                        old(self)@.remove(key)
                    } else {
                        old(self)@.insert(key, after)
                    }
                }
            }),
            proposal_matches(result, streams_output(old(self)@, peer_id, msg)),
            final(self)@ == streams_after(old(self)@, peer_id, msg),
            buffers_sorted(final(self)@),
    {
        proof {
            use_type_invariant(&*self);
        }
        let ghost old_view = self@;
        let ghost key = stream_key(peer_id, msg.stream_id);
        let stream_id = msg.stream_id;
        let mut streams: Vec<StreamEntry> = Vec::new();
        std::mem::swap(&mut streams, &mut self.streams);
        let ghost s0 = streams@;
        let found = Self::find_stream(&streams, &peer_id, stream_id);
        let mut entry = match found {
            Some(i) => {
                proof {
                    lemma_view_at(s0, i as int);
                    lemma_view_remove(s0, i as int);
                }
                streams.remove(i)
            },
            None => {
                assert(!old_view.contains_key(key));
                StreamEntry { peer_id, stream_id, state: StreamState::new() }
            },
        };
        let ghost s1 = streams@;
        assert(entry_key(entry) == key);
        assert(entry.state@ == current_stream(old_view, key));
        assert(streams_view(s1) =~= old_view.remove(key));
        assert(!has_key(s1, key)) by {
            if has_key(s1, key) {
                let a = choose|a: int| 0 <= a < s1.len() && entry_key(#[trigger] s1[a]) == key;
                lemma_view_at(s1, a);
            }
        }
        assert(forall|i: int| 0 <= i < s1.len() ==> (#[trigger] s1[i]).state.wf()) by {
            assert forall|i: int| 0 <= i < s1.len() implies (#[trigger] s1[i]).state.wf() by {
                if let Some(x) = found {
                    let i0 = if i < x { i } else { i + 1 };
                    assert(s1[i] == s0[i0]);
                }
            }
        }
        let ghost st = entry.state@;
        if !entry.state.seen_sequences.insert(msg.sequence) {
            assert(entry.state.seen_sequences@ =~= st.seen_sequences);
            assert(entry.state@ == st);
            proof {
                lemma_view_push(s1, entry);
                Self::lemma_buffers_sorted(s1.push(entry));
            }
            streams.push(entry);
            assert(streams_view(streams@) =~= old_view);
            assert(old_view.contains_key(key)) by {
                if !old_view.contains_key(key) {
                    assert(st.seen_sequences == Set::<u64>::empty());
                }
            }
            assert(old_view.insert(key, st) =~= old_view);
            self.streams = streams;
            return None;
        }
        let result = entry.state.insert(msg);
        proof {
            lemma_stream_kept_after_message(
                StreamModel { seen_sequences: st.seen_sequences.insert(msg.sequence), ..st },
                msg,
            );
        }
        if !entry.state.is_done() {
            proof {
                lemma_view_push(s1, entry);
                Self::lemma_buffers_sorted(s1.push(entry));
            }
            streams.push(entry);
            assert(streams_view(streams@) =~= old_view.insert(key, entry.state@));
        } else {
            proof {
                Self::lemma_buffers_sorted(s1);
            }
        }
        self.streams = streams;
        result
    }
}


/// A stream's record after `msg` is offered to it: a message whose sequence
/// number the stream has seen changes nothing; any other is recorded as seen
/// and taken in.
pub open spec fn accept_message(st: StreamModel, msg: StreamMessage<ProposalPart>) -> StreamModel {
    if st.seen_sequences.contains(msg.sequence) {
        st
    } else {
        stream_after(
            StreamModel { seen_sequences: st.seen_sequences.insert(msg.sequence), ..st },
            msg,
        )
    }
}

/// What offering `msg` to a stream hands out.
pub open spec fn accept_output(st: StreamModel, msg: StreamMessage<ProposalPart>) -> Option<
    (ProposalInit, Seq<ProposalPart>),
> {
    if st.seen_sequences.contains(msg.sequence) {
        None
    } else {
        stream_output(StreamModel { seen_sequences: st.seen_sequences.insert(msg.sequence), ..st }, msg)
    }
}

/// A stream's record after the messages of `msgs` are offered to it in turn.
pub open spec fn feed_stream(st: StreamModel, msgs: Seq<StreamMessage<ProposalPart>>) -> StreamModel
    decreases msgs.len(),
{
    if msgs.len() == 0 {
        st
    } else {
        accept_message(feed_stream(st, msgs.drop_last()), msgs.last())
    }
}

/// Placing a message by its sequence number is inserting it at some position.
proof fn lemma_insert_by_sequence_position<T>(s: Seq<StreamMessage<T>>, m: StreamMessage<T>) -> (k:
    int)
    ensures
        0 <= k <= s.len(),
        insert_by_sequence(s, m) == s.insert(k, m),
    decreases s.len(),
{
    if s.len() == 0 {
        assert(s.insert(0, m) =~= seq![m]);
        0
    } else if m.sequence < s[0].sequence {
        assert(s.insert(0, m) =~= seq![m] + s);
        0
    } else {
        let rest = s.drop_first();
        let k = lemma_insert_by_sequence_position(rest, m);
        assert(seq![s[0]] + rest.insert(k, m) =~= s.insert(k + 1, m));
        k + 1
    }
}

/// A message whose sequence number is at least that of every buffered
/// message goes to the end of the buffer.
proof fn lemma_insert_by_sequence_last<T>(s: Seq<StreamMessage<T>>, m: StreamMessage<T>)
    requires
        forall|i: int| 0 <= i < s.len() ==> (#[trigger] s[i]).sequence <= m.sequence,
    ensures
        insert_by_sequence(s, m) == s.push(m),
    decreases s.len(),
{
    if s.len() > 0 {
        lemma_insert_by_sequence_last(s.drop_first(), m);
        assert(seq![s[0]] + s.drop_first().push(m) =~= s.push(m));
    }
}

/// No message is lost or doubled: the buffer after a message is taken in
/// holds the messages it held before and that message.
pub proof fn lemma_buffer_keeps_messages(st: StreamModel, msg: StreamMessage<ProposalPart>)
    ensures
        stream_push(st, msg).buffer.to_multiset() == st.buffer.to_multiset().insert(msg),
{
    broadcast use vstd::seq_lib::to_multiset_insert;

    let k = lemma_insert_by_sequence_position(st.buffer, msg);
}

/// A stream's buffer stays in ascending order of sequence number.
pub proof fn lemma_buffer_stays_sorted(st: StreamModel, msg: StreamMessage<ProposalPart>)
    requires
        sorted_by_sequence(st.buffer),
    ensures
        sorted_by_sequence(stream_after(st, msg).buffer),
        sorted_by_sequence(accept_message(st, msg).buffer),
{
    lemma_insert_by_sequence_sorted(st.buffer, msg);
}

/// A stream is never complete once a message has been taken in: when the
/// message completes it, its init part is handed out with the proposal. So
/// the map of streams keeps a record of every stream it has been offered a
/// message of.
pub proof fn lemma_stream_kept_after_message(st: StreamModel, msg: StreamMessage<ProposalPart>)
    ensures
        !stream_is_done(stream_after(st, msg)),
{
}

/// The proposal is handed out only once its init part, its end and as many
/// messages as the end announced have been received, and it is the data of
/// the buffered messages in ascending order of sequence number.
pub proof fn lemma_output_only_when_complete(st: StreamModel, msg: StreamMessage<ProposalPart>)
    requires
        sorted_by_sequence(st.buffer),
    ensures
        stream_output(st, msg) matches Some((init, parts)) ==> {
            let pushed = stream_push(st, msg);
            &&& pushed.init_info == Some(init)
            &&& pushed.fin_received
            &&& pushed.buffer.len() == pushed.total_messages
            &&& sorted_by_sequence(pushed.buffer)
            &&& pushed.buffer.to_multiset() == st.buffer.to_multiset().insert(msg)
            &&& parts == data_contents(pushed.buffer)
        },
{
    lemma_insert_by_sequence_sorted(st.buffer, msg);
    lemma_buffer_keeps_messages(st, msg);
}

/// An in-order stream: message `i` is numbered `i`, the first carries the
/// init part, every message but the last carries data, and the last ends it.
pub open spec fn in_order_stream(init: ProposalInit, msgs: Seq<StreamMessage<ProposalPart>>) -> bool {
    &&& 2 <= msgs.len()
    &&& forall|i: int| 0 <= i < msgs.len() ==> (#[trigger] msgs[i]).sequence == i
    &&& msgs[0].content == StreamContent::Data(ProposalPart::Init(init))
    &&& forall|i: int| 0 <= i < msgs.len() - 1 ==> (#[trigger] msgs[i]).content is Data
    &&& msgs.last().content is Fin
}

/// A stream delivered in order, its init part first and its end last,
/// hands out nothing until its end and then the proposal: the init part's
/// height, round and proposer, and the data of all its messages in order.
pub proof fn lemma_in_order_stream_reassembles(
    init: ProposalInit,
    msgs: Seq<StreamMessage<ProposalPart>>,
)
    requires
        in_order_stream(init, msgs),
    ensures
        forall|j: int|
            0 <= j < msgs.len() - 1 ==> accept_output(
                feed_stream(initial_stream(), msgs.take(j)),
                #[trigger] msgs[j],
            ) is None,
        accept_output(feed_stream(initial_stream(), msgs.drop_last()), msgs.last()) == Some(
            (init, data_contents(msgs)),
        ),
{
    assert forall|a: int| 0 <= a < msgs.len() implies exists|b: int|
        0 <= b < msgs.len() && #[trigger] msgs[a] == msgs[b] by {
        assert(msgs[a] == msgs[a]);
    }
    assert forall|b: int| 0 <= b < msgs.len() implies exists|a: int|
        0 <= a < msgs.len() && msgs[a] == #[trigger] msgs[b] by {
        assert(msgs[b] == msgs[b]);
    }
    lemma_stream_reassembles_in_any_order(init, msgs, msgs);
}

/// The messages of `s` whose sequence numbers are in `seqs`, in the order
/// of `s`.
pub open spec fn select_by_sequence(s: Seq<StreamMessage<ProposalPart>>, seqs: Set<u64>) -> Seq<
    StreamMessage<ProposalPart>,
>
    decreases s.len(),
{
    if s.len() == 0 {
        Seq::empty()
    } else if seqs.contains(s[0].sequence) {
        seq![s[0]] + select_by_sequence(s.drop_first(), seqs)
    } else {
        select_by_sequence(s.drop_first(), seqs)
    }
}

spec fn strictly_ascending_sequences(s: Seq<StreamMessage<ProposalPart>>) -> bool {
    forall|i: int, j: int| 0 <= i < j < s.len() ==> (#[trigger] s[i]).sequence < (#[trigger] s[j]).sequence
}

proof fn lemma_select_agree(s: Seq<StreamMessage<ProposalPart>>, a: Set<u64>, b: Set<u64>)
    requires
        forall|i: int| 0 <= i < s.len() ==> (a.contains((#[trigger] s[i]).sequence) <==> b.contains(
            s[i].sequence,
        )),
    ensures
        select_by_sequence(s, a) == select_by_sequence(s, b),
    decreases s.len(),
{
    if s.len() > 0 {
        assert(a.contains(s[0].sequence) <==> b.contains(s[0].sequence));
        let rest = s.drop_first();
        assert forall|i: int| 0 <= i < rest.len() implies (a.contains((#[trigger] rest[i]).sequence)
            <==> b.contains(rest[i].sequence)) by {
            assert(rest[i] == s[i + 1]);
        }
        lemma_select_agree(rest, a, b);
    }
}

proof fn lemma_select_all(s: Seq<StreamMessage<ProposalPart>>, seqs: Set<u64>)
    requires
        forall|i: int| 0 <= i < s.len() ==> seqs.contains((#[trigger] s[i]).sequence),
    ensures
        select_by_sequence(s, seqs) == s,
    decreases s.len(),
{
    if s.len() > 0 {
        let rest = s.drop_first();
        assert(seqs.contains(s[0].sequence));
        assert forall|i: int| 0 <= i < rest.len() implies seqs.contains((#[trigger] rest[i]).sequence) by {
            assert(rest[i] == s[i + 1]);
        }
        lemma_select_all(rest, seqs);
        assert(seq![s[0]] + rest =~= s);
    }
}

proof fn lemma_select_lower_bound(s: Seq<StreamMessage<ProposalPart>>, seqs: Set<u64>, lo: u64)
    requires
        forall|i: int| 0 <= i < s.len() ==> lo < (#[trigger] s[i]).sequence,
    ensures
        forall|i: int|
            0 <= i < select_by_sequence(s, seqs).len() ==> lo < (#[trigger] select_by_sequence(
                s,
                seqs,
            )[i]).sequence,
    decreases s.len(),
{
    if s.len() > 0 {
        let rest = s.drop_first();
        assert forall|i: int| 0 <= i < rest.len() implies lo < (#[trigger] rest[i]).sequence by {
            assert(rest[i] == s[i + 1]);
        }
        lemma_select_lower_bound(rest, seqs, lo);
    }
}

/// Placing a message of `s` whose number has not been selected into the
/// selection gives the selection with that number added.
proof fn lemma_select_insert(
    s: Seq<StreamMessage<ProposalPart>>,
    seqs: Set<u64>,
    j: int,
)
    requires
        strictly_ascending_sequences(s),
        0 <= j < s.len(),
        !seqs.contains(s[j].sequence),
    ensures
        insert_by_sequence(select_by_sequence(s, seqs), s[j]) == select_by_sequence(
            s,
            seqs.insert(s[j].sequence),
        ),
    decreases s.len(),
{
    let m = s[j];
    let rest = s.drop_first();
    let more = seqs.insert(m.sequence);
    assert(strictly_ascending_sequences(rest)) by {
        assert forall|a: int, b: int| 0 <= a < b < rest.len() implies (#[trigger] rest[a]).sequence
            < (#[trigger] rest[b]).sequence by {
            assert(rest[a] == s[a + 1] && rest[b] == s[b + 1]);
        }
    }
    if j == 0 {
        assert forall|i: int| 0 <= i < rest.len() implies m.sequence < (#[trigger] rest[i]).sequence by {
            assert(rest[i] == s[i + 1]);
        }
        lemma_select_lower_bound(rest, seqs, m.sequence);
        assert forall|i: int| 0 <= i < rest.len() implies (seqs.contains(
            (#[trigger] rest[i]).sequence,
        ) <==> more.contains(rest[i].sequence)) by {
            assert(rest[i] == s[i + 1]);
        }
        lemma_select_agree(rest, seqs, more);
        let sel = select_by_sequence(rest, seqs);
        if sel.len() > 0 {
            assert(m.sequence < sel[0].sequence);
        }
        assert(insert_by_sequence(sel, m) == seq![m] + sel);
    } else {
        assert(s[0].sequence < m.sequence);
        assert(rest[j - 1] == m);
        lemma_select_insert(rest, seqs, j - 1);
        if seqs.contains(s[0].sequence) {
            let x = select_by_sequence(rest, seqs);
            assert((seq![s[0]] + x).drop_first() =~= x);
            assert((seq![s[0]] + x)[0] == s[0]);
            assert(insert_by_sequence(select_by_sequence(s, seqs), m) == seq![s[0]]
                + insert_by_sequence(select_by_sequence(rest, seqs), m));
        }
    }
}

/// `perm` holds the messages of `ord`, each exactly once, in some order.
pub open spec fn reorders(
    perm: Seq<StreamMessage<ProposalPart>>,
    ord: Seq<StreamMessage<ProposalPart>>,
) -> bool {
    &&& perm.len() == ord.len()
    &&& forall|i: int|
        0 <= i < perm.len() ==> exists|j: int| 0 <= j < ord.len() && #[trigger] perm[i] == ord[j]
    &&& forall|j: int|
        0 <= j < ord.len() ==> exists|i: int| 0 <= i < perm.len() && perm[i] == #[trigger] ord[j]
    &&& forall|i: int, k: int|
        0 <= i < perm.len() && 0 <= k < perm.len() && i != k ==> (#[trigger] perm[i]).sequence != (
        #[trigger] perm[k]).sequence
}

/// What a stream's record is after the first `k` messages of `perm`, a
/// reordering of the in-order stream `ord`.
#[verifier::opaque]
spec fn reordered_prefix(
    init: ProposalInit,
    ord: Seq<StreamMessage<ProposalPart>>,
    perm: Seq<StreamMessage<ProposalPart>>,
    k: int,
    st: StreamModel,
) -> bool {
    &&& forall|q: u64|
        #[trigger] st.seen_sequences.contains(q) <==> exists|i: int|
            0 <= i < k && (#[trigger] perm[i]).sequence == q
    &&& st.buffer == select_by_sequence(ord, st.seen_sequences)
    &&& st.buffer.len() == k
    &&& st.init_info == if st.seen_sequences.contains(0) {
        Some(init)
    } else {
        None::<ProposalInit>
    }
    &&& st.fin_received == st.seen_sequences.contains((ord.len() - 1) as u64)
    &&& st.fin_received ==> st.total_messages == ord.len()
}

proof fn lemma_reordered_step(
    init: ProposalInit,
    ord: Seq<StreamMessage<ProposalPart>>,
    perm: Seq<StreamMessage<ProposalPart>>,
    k: int,
)
    requires
        in_order_stream(init, ord),
        reorders(perm, ord),
        0 <= k < perm.len(),
        reordered_prefix(init, ord, perm, k, feed_stream(initial_stream(), perm.take(k))),
    ensures
        feed_stream(initial_stream(), perm.take(k + 1)) == accept_message(
            feed_stream(initial_stream(), perm.take(k)),
            perm[k],
        ),
        k < perm.len() - 1 ==> {
            &&& accept_output(feed_stream(initial_stream(), perm.take(k)), perm[k]) is None
            &&& reordered_prefix(
                init,
                ord,
                perm,
                k + 1,
                feed_stream(initial_stream(), perm.take(k + 1)),
            )
        },
        k == perm.len() - 1 ==> accept_output(feed_stream(initial_stream(), perm.take(k)), perm[k])
            == Some((init, data_contents(ord))),
{
    reveal(reordered_prefix);
    let n = ord.len() - 1;
    let st = feed_stream(initial_stream(), perm.take(k));
    let m = perm[k];
    assert(perm.take(k + 1).drop_last() =~= perm.take(k));
    assert(perm.take(k + 1).last() == m);
    let j = choose|j: int| 0 <= j < ord.len() && perm[k] == ord[j];
    assert(m == ord[j]);
    assert(m.sequence == j);
    assert(!st.seen_sequences.contains(m.sequence)) by {
        if st.seen_sequences.contains(m.sequence) {
            let i = choose|i: int| 0 <= i < k && (#[trigger] perm[i]).sequence == m.sequence;
        }
    }
    assert(strictly_ascending_sequences(ord));
    let seen = st.seen_sequences.insert(m.sequence);
    let accepted = StreamModel { seen_sequences: seen, ..st };
    let pushed = stream_push(accepted, m);
    lemma_select_insert(ord, st.seen_sequences, j);
    assert(pushed.buffer == select_by_sequence(ord, seen));
    lemma_insert_by_sequence_lower_bound(st.buffer, m, 0);
    assert(pushed.buffer.len() == k + 1);
    assert(forall|q: u64| #[trigger] seen.contains(q) <==> exists|i: int|
        0 <= i < k + 1 && (#[trigger] perm[i]).sequence == q) by {
        assert forall|q: u64| #[trigger] seen.contains(q) implies exists|i: int|
            0 <= i < k + 1 && (#[trigger] perm[i]).sequence == q by {
            if q != m.sequence {
                let i = choose|i: int| 0 <= i < k && (#[trigger] perm[i]).sequence == q;
            }
        }
        assert forall|q: u64| (exists|i: int| 0 <= i < k + 1 && (#[trigger] perm[i]).sequence == q)
            implies #[trigger] seen.contains(q) by {
            let i = choose|i: int| 0 <= i < k + 1 && (#[trigger] perm[i]).sequence == q;
            if i < k {
                assert(st.seen_sequences.contains(q));
            }
        }
    }
    // The init part is set exactly by the message numbered 0.
    if m.sequence == 0 {
        assert(m == ord[0]);
        assert(init_of(m) == Some(init));
    }
    assert(pushed.init_info == if seen.contains(0) {
        Some(init)
    } else {
        None::<ProposalInit>
    });
    // The end is the message numbered n.
    assert(m.content is Fin <==> j == n) by {
        if j < n {
            assert(ord[j].content is Data);
        }
    }
    assert(pushed.fin_received == seen.contains(n as u64));
    if k < perm.len() - 1 {
        assert(!stream_is_done(pushed));
    } else {
        assert forall|i: int| 0 <= i < ord.len() implies seen.contains((#[trigger] ord[i]).sequence) by {
            let a = choose|a: int| 0 <= a < perm.len() && perm[a] == #[trigger] ord[i];
            assert(perm[a].sequence == ord[i].sequence);
        }
        lemma_select_all(ord, seen);
        assert(ord[0].sequence == 0);
        assert(ord[n].sequence == n);
        assert(seen.contains(0));
        assert(seen.contains(n as u64));
        assert(stream_is_done(pushed));
    }
}

/// A complete stream delivered in any order, each message once, hands out
/// nothing until its last message arrives and then the proposal: the init
/// part's height, round and proposer, and the data of all its messages in
/// ascending order of sequence number.
pub proof fn lemma_stream_reassembles_in_any_order(
    init: ProposalInit,
    ord: Seq<StreamMessage<ProposalPart>>,
    perm: Seq<StreamMessage<ProposalPart>>,
)
    requires
        in_order_stream(init, ord),
        reorders(perm, ord),
    ensures
        forall|j: int|
            0 <= j < perm.len() - 1 ==> accept_output(
                feed_stream(initial_stream(), perm.take(j)),
                #[trigger] perm[j],
            ) is None,
        accept_output(feed_stream(initial_stream(), perm.drop_last()), perm.last()) == Some(
            (init, data_contents(ord)),
        ),
{
    let len = perm.len() as int;
    lemma_reordered_upto(init, ord, perm, len - 1);
    lemma_reordered_step(init, ord, perm, len - 1);
    assert(perm.take(len - 1) =~= perm.drop_last());
}

#[verifier::rlimit(30)]
proof fn lemma_reordered_upto(
    init: ProposalInit,
    ord: Seq<StreamMessage<ProposalPart>>,
    perm: Seq<StreamMessage<ProposalPart>>,
    k: int,
)
    requires
        in_order_stream(init, ord),
        reorders(perm, ord),
        0 <= k <= perm.len() - 1,
    ensures
        reordered_prefix(init, ord, perm, k, feed_stream(initial_stream(), perm.take(k))),
        forall|j: int|
            0 <= j < k ==> accept_output(
                feed_stream(initial_stream(), perm.take(j)),
                #[trigger] perm[j],
            ) is None,
    decreases k,
{
    if k == 0 {
        assert(perm.take(0) =~= Seq::<StreamMessage<ProposalPart>>::empty());
        assert(feed_stream(initial_stream(), perm.take(0)) == initial_stream());
        lemma_select_none(ord);
        reveal(reordered_prefix);
        assert(initial_stream().buffer == select_by_sequence(ord, Set::<u64>::empty()));
    } else {
        lemma_reordered_upto(init, ord, perm, k - 1);
        lemma_reordered_step(init, ord, perm, k - 1);
    }
}

proof fn lemma_select_none(s: Seq<StreamMessage<ProposalPart>>)
    ensures
        select_by_sequence(s, Set::<u64>::empty()) == Seq::<StreamMessage<ProposalPart>>::empty(),
    decreases s.len(),
{
    if s.len() > 0 {
        lemma_select_none(s.drop_first());
    }
}

/// The map of streams after `msg` of `peer_id` is offered to it: only the
/// record of the message's stream changes, as `accept_message` says.
pub open spec fn streams_after(
    streams: Map<StreamKey, StreamModel>,
    peer_id: PeerId,
    msg: StreamMessage<ProposalPart>,
) -> Map<StreamKey, StreamModel> {
    streams.insert(
        stream_key(peer_id, msg.stream_id),
        accept_message(current_stream(streams, stream_key(peer_id, msg.stream_id)), msg),
    )
}

/// What offering `msg` of `peer_id` to the map of streams hands out.
pub open spec fn streams_output(
    streams: Map<StreamKey, StreamModel>,
    peer_id: PeerId,
    msg: StreamMessage<ProposalPart>,
) -> Option<(ProposalInit, Seq<ProposalPart>)> {
    accept_output(current_stream(streams, stream_key(peer_id, msg.stream_id)), msg)
}

/// The map of streams after the calls of `calls`, each a peer and a
/// message, are made in turn.
pub open spec fn feed_streams(
    streams: Map<StreamKey, StreamModel>,
    calls: Seq<(PeerId, StreamMessage<ProposalPart>)>,
) -> Map<StreamKey, StreamModel>
    decreases calls.len(),
{
    if calls.len() == 0 {
        streams
    } else {
        streams_after(feed_streams(streams, calls.drop_last()), calls.last().0, calls.last().1)
    }
}

/// The messages of `calls` that belong to the stream `key`, in order.
pub open spec fn messages_for(calls: Seq<(PeerId, StreamMessage<ProposalPart>)>, key: StreamKey) -> Seq<
    StreamMessage<ProposalPart>,
>
    decreases calls.len(),
{
    if calls.len() == 0 {
        Seq::empty()
    } else if stream_key(calls.last().0, calls.last().1.stream_id) == key {
        messages_for(calls.drop_last(), key).push(calls.last().1)
    } else {
        messages_for(calls.drop_last(), key)
    }
}

/// Streams are independent: after any series of calls, the record of a
/// stream is what its own messages, in the order they came, made of it;
/// calls for other streams leave it as it was.
pub proof fn lemma_streams_independent(
    streams: Map<StreamKey, StreamModel>,
    calls: Seq<(PeerId, StreamMessage<ProposalPart>)>,
    key: StreamKey,
)
    ensures
        current_stream(feed_streams(streams, calls), key) == feed_stream(
            current_stream(streams, key),
            messages_for(calls, key),
        ),
    decreases calls.len(),
{
    if calls.len() > 0 {
        let prev = calls.drop_last();
        lemma_streams_independent(streams, prev, key);
        let c = calls.last();
        if stream_key(c.0, c.1.stream_id) == key {
            let mf = messages_for(calls, key);
            assert(mf.drop_last() =~= messages_for(prev, key));
        }
    }
}

/// Over a series of calls, the call that offers a message of stream `key`
/// hands out what that stream, fed its own earlier messages, hands out.
pub proof fn lemma_streams_output(
    streams: Map<StreamKey, StreamModel>,
    calls: Seq<(PeerId, StreamMessage<ProposalPart>)>,
    j: int,
)
    requires
        0 <= j < calls.len(),
    ensures
        streams_output(feed_streams(streams, calls.take(j)), calls[j].0, calls[j].1) == accept_output(
            feed_stream(
                current_stream(streams, stream_key(calls[j].0, calls[j].1.stream_id)),
                messages_for(calls.take(j), stream_key(calls[j].0, calls[j].1.stream_id)),
            ),
            calls[j].1,
        ),
{
    lemma_streams_independent(streams, calls.take(j), stream_key(calls[j].0, calls[j].1.stream_id));
}

/// The record of a stream that every reachable record meets: an init part
/// is only held once the message numbered 0 has been seen.
pub open spec fn stream_reachable(st: StreamModel) -> bool {
    st.init_info is Some ==> st.seen_sequences.contains(0)
}

/// A stream that has handed out its proposal: its init part is gone and
/// the message numbered 0 has been seen, so it cannot come again.
pub open spec fn stream_spent(st: StreamModel) -> bool {
    &&& st.init_info is None
    &&& st.seen_sequences.contains(0)
}

proof fn lemma_feed_step(st: StreamModel, msgs: Seq<StreamMessage<ProposalPart>>, k: int)
    requires
        0 <= k < msgs.len(),
    ensures
        feed_stream(st, msgs.take(k + 1)) == accept_message(feed_stream(st, msgs.take(k)), msgs[k]),
{
    assert(msgs.take(k + 1).drop_last() =~= msgs.take(k));
    assert(msgs.take(k + 1).last() == msgs[k]);
}

proof fn lemma_reachable_kept(st: StreamModel, msg: StreamMessage<ProposalPart>)
    requires
        stream_reachable(st),
    ensures
        stream_reachable(accept_message(st, msg)),
        accept_output(st, msg) is Some ==> stream_spent(accept_message(st, msg)),
        stream_spent(st) ==> stream_spent(accept_message(st, msg)) && accept_output(st, msg) is None,
{
}

proof fn lemma_reachable_prefix(st: StreamModel, msgs: Seq<StreamMessage<ProposalPart>>, k: int)
    requires
        stream_reachable(st),
        0 <= k <= msgs.len(),
    ensures
        stream_reachable(feed_stream(st, msgs.take(k))),
    decreases k,
{
    if k == 0 {
        assert(msgs.take(0) =~= Seq::<StreamMessage<ProposalPart>>::empty());
    } else {
        lemma_reachable_prefix(st, msgs, k - 1);
        lemma_feed_step(st, msgs, k - 1);
        lemma_reachable_kept(feed_stream(st, msgs.take(k - 1)), msgs[k - 1]);
    }
}

proof fn lemma_spent_after(st: StreamModel, msgs: Seq<StreamMessage<ProposalPart>>, i: int, j: int)
    requires
        stream_reachable(st),
        0 <= i < j <= msgs.len(),
        accept_output(feed_stream(st, msgs.take(i)), msgs[i]) is Some,
    ensures
        stream_spent(feed_stream(st, msgs.take(j))),
    decreases j,
{
    lemma_reachable_prefix(st, msgs, j - 1);
    lemma_feed_step(st, msgs, j - 1);
    if j == i + 1 {
        lemma_reachable_kept(feed_stream(st, msgs.take(i)), msgs[i]);
    } else {
        lemma_spent_after(st, msgs, i, j - 1);
        lemma_reachable_kept(feed_stream(st, msgs.take(j - 1)), msgs[j - 1]);
    }
}

/// A stream hands out at most one proposal: once it has, no later message
/// offered to it hands out another.
pub proof fn lemma_at_most_one_proposal(msgs: Seq<StreamMessage<ProposalPart>>, i: int, j: int)
    requires
        0 <= i < j < msgs.len(),
        accept_output(feed_stream(initial_stream(), msgs.take(i)), msgs[i]) is Some,
    ensures
        accept_output(feed_stream(initial_stream(), msgs.take(j)), msgs[j]) is None,
{
    lemma_spent_after(initial_stream(), msgs, i, j);
    lemma_reachable_kept(feed_stream(initial_stream(), msgs.take(j)), msgs[j]);
}

/// Over any series of calls to the map of streams, starting empty, a
/// stream whose messages are a complete stream delivered in any order,
/// each once, hands out nothing until its last message and then its
/// proposal, whatever other streams' messages come between.
pub proof fn lemma_map_reassembles_in_any_order(
    calls: Seq<(PeerId, StreamMessage<ProposalPart>)>,
    key: StreamKey,
    init: ProposalInit,
    ord: Seq<StreamMessage<ProposalPart>>,
    j: int,
)
    requires
        in_order_stream(init, ord),
        reorders(messages_for(calls, key), ord),
        0 <= j < calls.len(),
        stream_key(calls[j].0, calls[j].1.stream_id) == key,
    ensures
        messages_for(calls.take(j), key).len() < ord.len() - 1 ==> streams_output(
            feed_streams(Map::empty(), calls.take(j)),
            calls[j].0,
            calls[j].1,
        ) is None,
        messages_for(calls.take(j), key).len() == ord.len() - 1 ==> streams_output(
            feed_streams(Map::empty(), calls.take(j)),
            calls[j].0,
            calls[j].1,
        ) == Some((init, data_contents(ord))),
{
    let perm = messages_for(calls, key);
    let k = messages_for(calls.take(j), key).len() as int;
    lemma_streams_output(Map::empty(), calls, j);
    lemma_messages_for_prefix(calls, key, j);
    assert(current_stream(Map::<StreamKey, StreamModel>::empty(), key) == initial_stream());
    lemma_stream_reassembles_in_any_order(init, ord, perm);
    if k == ord.len() - 1 {
        assert(perm.take(k) =~= perm.drop_last());
    }
}

/// The messages of stream `key` before call `j` are the first ones of all
/// its messages, and call `j`'s message, when it is of that stream, comes
/// next.
proof fn lemma_messages_for_prefix(
    calls: Seq<(PeerId, StreamMessage<ProposalPart>)>,
    key: StreamKey,
    j: int,
)
    requires
        0 <= j < calls.len(),
        stream_key(calls[j].0, calls[j].1.stream_id) == key,
    ensures
        messages_for(calls.take(j), key).len() < messages_for(calls, key).len(),
        messages_for(calls.take(j), key) == messages_for(calls, key).take(
            messages_for(calls.take(j), key).len() as int,
        ),
        messages_for(calls, key)[messages_for(calls.take(j), key).len() as int] == calls[j].1,
    decreases calls.len(),
{
    let n = calls.len() - 1;
    if j == n {
        assert(calls.drop_last() =~= calls.take(j));
        let mf = messages_for(calls, key);
        assert(mf == messages_for(calls.take(j), key).push(calls[j].1));
        assert(mf.take(mf.len() - 1) =~= messages_for(calls.take(j), key));
    } else {
        let prev = calls.drop_last();
        assert(prev[j] == calls[j]);
        assert(prev.take(j) =~= calls.take(j));
        lemma_messages_for_prefix(prev, key, j);
        let a = messages_for(prev, key);
        let b = messages_for(calls, key);
        let p = messages_for(calls.take(j), key);
        if stream_key(calls.last().0, calls.last().1.stream_id) == key {
            assert(b == a.push(calls.last().1));
            assert(b.take(p.len() as int) =~= a.take(p.len() as int));
            assert(b[p.len() as int] == a[p.len() as int]);
        } else {
            assert(b == a);
        }
    }
}

} // verus!

//! The bounded message store: a queue in insertion order with a count limit
//! and a byte limit, read newest first.

use std::collections::VecDeque;
use tokio::sync::broadcast::{Receiver, Sender};
use vstd::prelude::*;
use vstd::string::*;
use vstd::utf8::encode_utf8;
use crate::config::StoreConfig;
use crate::hl7::types::{
    opt_text, summary_of, Hl7Message, Hl7MessageSummary, MessageView, SummaryView,
};
use crate::text::{contains, contains_chars, lowercase_of, same_text, to_chars, to_lowercase};

verus! {

/// How many events the notification channel holds for a slow subscriber.
pub const BROADCAST_CAPACITY: usize = 4096;

/// What the store tells its subscribers.
#[derive(Debug)]
pub enum StoreEvent {
    NewMessage(Box<Hl7MessageSummary>),
    Cleared,
}

impl Clone for StoreEvent {
    fn clone(&self) -> (r: Self)
        ensures
            self matches StoreEvent::NewMessage(s) ==> (r matches StoreEvent::NewMessage(t) && t@
                == s@),
            self is Cleared ==> r is Cleared,
    {
        match self {
            StoreEvent::NewMessage(s) => {
                let t: Hl7MessageSummary = (**s).clone();
                StoreEvent::NewMessage(Box::new(t))
            },
            StoreEvent::Cleared => StoreEvent::Cleared,
        }
    }
}

/// The views of the messages of a queue.
pub open spec fn message_views(q: Seq<Hl7Message>) -> Seq<MessageView> {
    q.map_values(|m: Hl7Message| m@)
}

/// The views of a list of summaries.
pub open spec fn summary_views(v: Seq<Hl7MessageSummary>) -> Seq<SummaryView> {
    v.map_values(|s: Hl7MessageSummary| s@)
}

/// The bytes that the payload of a message takes.
pub open spec fn raw_len(m: MessageView) -> nat {
    encode_utf8(m.raw).len()
}

/// The bytes that the payloads of a queue take together.
pub open spec fn total_bytes(q: Seq<MessageView>) -> nat
    decreases q.len(),
{
    if q.len() == 0 {
        0
    } else {
        total_bytes(q.drop_last()) + raw_len(q.last())
    }
}

/// Whether a store with these contents must evict before it takes another
/// message.
pub open spec fn must_evict(q: Seq<MessageView>, count_cap: nat, byte_cap: nat) -> bool {
    total_bytes(q) >= byte_cap || q.len() >= count_cap
}

/// How many messages one eviction removes from a queue of `count`: a tenth,
/// rounded down, but at least one where there is any.
pub open spec fn evict_count(count: nat) -> nat {
    if count == 0 {
        0
    } else if count < 10 {
        1
    } else {
        count / 10
    }
}

/// What a store keeps of its queue when another message arrives: all of it,
/// or all but the oldest tenth where it must evict.
pub open spec fn retained(q: Seq<MessageView>, count_cap: nat, byte_cap: nat) -> Seq<MessageView> {
    if must_evict(q, count_cap, byte_cap) {
        q.skip(evict_count(q.len()) as int)
    } else {
        q
    }
}

/// The queue after `m` was inserted: what is retained, then `m`.
pub open spec fn after_insert(q: Seq<MessageView>, m: MessageView, count_cap: nat, byte_cap: nat)
    -> Seq<MessageView> {
    retained(q, count_cap, byte_cap).push(m)
}

/// The queue after the messages `ms` were inserted one by one.
pub open spec fn after_inserts(
    q: Seq<MessageView>,
    ms: Seq<MessageView>,
    count_cap: nat,
    byte_cap: nat,
) -> Seq<MessageView>
    decreases ms.len(),
{
    if ms.len() == 0 {
        q
    } else {
        after_insert(after_inserts(q, ms.drop_last(), count_cap, byte_cap), ms.last(), count_cap, byte_cap)
    }
}

/// An insertion into a store with a positive count limit that holds no more
/// than its limit leaves it so.
pub proof fn lemma_count_after_insert(
    q: Seq<MessageView>,
    m: MessageView,
    count_cap: nat,
    byte_cap: nat,
)
    requires
        count_cap > 0,
        q.len() <= count_cap,
    ensures
        after_insert(q, m, count_cap, byte_cap).len() <= count_cap,
{
}

/// Whatever is inserted into a store with a positive count limit, and in
/// whatever order, the store never holds more messages than its limit.
pub proof fn lemma_count_after_inserts(
    q: Seq<MessageView>,
    ms: Seq<MessageView>,
    count_cap: nat,
    byte_cap: nat,
)
    requires
        count_cap > 0,
        q.len() <= count_cap,
    ensures
        after_inserts(q, ms, count_cap, byte_cap).len() <= count_cap,
    decreases ms.len(),
{
    if ms.len() > 0 {
        lemma_count_after_inserts(q, ms.drop_last(), count_cap, byte_cap);
        lemma_count_after_insert(
            after_inserts(q, ms.drop_last(), count_cap, byte_cap),
            ms.last(),
            count_cap,
            byte_cap,
        );
    }
}

/// The bytes held after an insertion are the bytes retained and the bytes
/// of the new message; they stay within the byte limit exactly when those
/// two together do. A message larger than the limit takes the store over it.
pub proof fn lemma_bytes_after_insert(
    q: Seq<MessageView>,
    m: MessageView,
    count_cap: nat,
    byte_cap: nat,
)
    ensures
        total_bytes(after_insert(q, m, count_cap, byte_cap)) == total_bytes(
            retained(q, count_cap, byte_cap),
        ) + raw_len(m),
        total_bytes(retained(q, count_cap, byte_cap)) <= total_bytes(q),
        total_bytes(after_insert(q, m, count_cap, byte_cap)) <= byte_cap <==> total_bytes(
            retained(q, count_cap, byte_cap),
        ) + raw_len(m) <= byte_cap,
{
    lemma_total_push(retained(q, count_cap, byte_cap), m);
    if must_evict(q, count_cap, byte_cap) {
        lemma_total_split(q, evict_count(q.len()) as int);
    }
}

/// A store below its byte limit that takes a message which fits in what is
/// left stays within the limit.
pub proof fn lemma_bytes_within_limit(
    q: Seq<MessageView>,
    m: MessageView,
    count_cap: nat,
    byte_cap: nat,
)
    requires
        total_bytes(q) + raw_len(m) <= byte_cap,
    ensures
        total_bytes(after_insert(q, m, count_cap, byte_cap)) <= byte_cap,
{
    lemma_bytes_after_insert(q, m, count_cap, byte_cap);
}

/// The message inserted last is listed first, and behind it stand the
/// messages retained, newest first.
pub proof fn lemma_newest_is_first(
    q: Seq<MessageView>,
    m: MessageView,
    count_cap: nat,
    byte_cap: nat,
)
    ensures
        newest_first(after_insert(q, m, count_cap, byte_cap)) == seq![summary_of(m)]
            + newest_first(retained(q, count_cap, byte_cap)),
{
    assert(newest_first(after_insert(q, m, count_cap, byte_cap)) =~= seq![summary_of(m)]
        + newest_first(retained(q, count_cap, byte_cap)));
}

/// A listing from the start with a limit that covers the store gives every
/// message, in the reverse of the order of insertion.
pub proof fn lemma_list_all_is_reverse(q: Seq<MessageView>, limit: nat)
    requires
        limit >= q.len(),
    ensures
        window(newest_first(q), 0, limit) == newest_first(q),
        newest_first(q).len() == q.len(),
        forall|i: int|
            0 <= i < q.len() ==> #[trigger] newest_first(q)[i] == summary_of(q[q.len() - 1 - i]),
{
    assert(window(newest_first(q), 0, limit) =~= newest_first(q));
}

/// Search folds case everywhere but in the source address: whether a message
/// answers a query depends on the query, and on the five fields searched,
/// only through their lower-case forms; for the source address it depends
/// on both as given.
pub proof fn lemma_search_folds_case(
    m1: MessageView,
    q1: Seq<char>,
    m2: MessageView,
    q2: Seq<char>,
)
    requires
        lowercase_of(q1) == lowercase_of(q2),
        lowercase_of(m1.message_type) == lowercase_of(m2.message_type),
        lowercase_of(m1.sending_facility) == lowercase_of(m2.sending_facility),
        lowercase_of(text_or_empty(m1.patient_name)) == lowercase_of(
            text_or_empty(m2.patient_name),
        ),
        lowercase_of(text_or_empty(m1.patient_id)) == lowercase_of(text_or_empty(m2.patient_id)),
        lowercase_of(m1.message_control_id) == lowercase_of(m2.message_control_id),
        contains(m1.source_addr, q1) == contains(m2.source_addr, q2),
    ensures
        answers(m1, q1) == answers(m2, q2),
{
}

/// Search matches parts of fields, not whole fields only: a query that is
/// part of the source address, or whose lower-case form is part of the
/// lower-case form of the message type, is answered.
pub proof fn lemma_search_matches_parts(m: MessageView, query: Seq<char>, i: int)
    requires
        crate::text::occurs_at(m.source_addr, query, i) || crate::text::occurs_at(
            lowercase_of(m.message_type),
            lowercase_of(query),
            i,
        ),
    ensures
        answers(m, query),
{
}

/// Adding a message adds its bytes.
pub proof fn lemma_total_push(q: Seq<MessageView>, m: MessageView)
    ensures
        total_bytes(q.push(m)) == total_bytes(q) + raw_len(m),
{
    assert(q.push(m).drop_last() =~= q);
}

/// A queue of payloads that each fit the address space takes no more bytes
/// than its length times the largest size.
pub proof fn lemma_total_bound(q: Seq<MessageView>)
    requires
        forall|i: int| 0 <= i < q.len() ==> raw_len(#[trigger] q[i]) <= usize::MAX,
    ensures
        total_bytes(q) <= q.len() * usize::MAX,
    decreases q.len(),
{
    if q.len() > 0 {
        let head = q.drop_last();
        assert forall|i: int| 0 <= i < head.len() implies raw_len(#[trigger] head[i])
            <= usize::MAX by {
            assert(head[i] == q[i]);
        }
        lemma_total_bound(head);
        assert(raw_len(q[q.len() - 1]) <= usize::MAX);
        assert(head.len() * usize::MAX + usize::MAX == q.len() * usize::MAX) by (nonlinear_arith)
            requires
                head.len() + 1 == q.len(),
        ;
    }
}

/// The bytes of a queue are those of its head and those of its tail.
pub proof fn lemma_total_split(q: Seq<MessageView>, k: int)
    requires
        0 <= k <= q.len(),
    ensures
        total_bytes(q) == total_bytes(q.take(k)) + total_bytes(q.skip(k)),
    decreases q.len(),
{
    if k == q.len() {
        assert(q.take(k) =~= q);
        assert(q.skip(k) =~= Seq::<MessageView>::empty());
    } else {
        lemma_total_split(q.drop_last(), k);
        assert(q.drop_last().take(k) =~= q.take(k));
        assert(q.skip(k).drop_last() =~= q.drop_last().skip(k));
    }
}

/// The summaries of a queue, newest first.
pub open spec fn newest_first(q: Seq<MessageView>) -> Seq<SummaryView> {
    Seq::new(q.len(), |i: int| summary_of(q[q.len() - 1 - i]))
}

/// The part of `s` that starts behind its first `offset` elements and holds
/// `limit` elements, or as many as are left.
pub open spec fn window(s: Seq<SummaryView>, offset: nat, limit: nat) -> Seq<SummaryView> {
    let from = if offset <= s.len() {
        offset
    } else {
        s.len()
    };
    let to = if from + limit <= s.len() {
        from + limit
    } else {
        s.len()
    };
    s.subrange(from as int, to as int)
}

/// The oldest message of `q` with the identity `id`.
pub open spec fn find_id(q: Seq<MessageView>, id: Seq<char>) -> Option<MessageView>
    decreases q.len(),
{
    if q.len() == 0 {
        None
    } else if q[0].id == id {
        Some(q[0])
    } else {
        find_id(q.drop_first(), id)
    }
}

/// The text of an optional field, empty where the field is absent.
pub open spec fn text_or_empty(o: Option<Seq<char>>) -> Seq<char> {
    match o {
        Some(s) => s,
        None => Seq::<char>::empty(),
    }
}

/// Whether a message answers a query. The lower-case form of the query must
/// be part of the lower-case form of one of: message type, sending facility,
/// patient name, patient identifier, control id; or the query as given must
/// be part of the source address as given. Case is not folded for the
/// address.
pub open spec fn answers(m: MessageView, query: Seq<char>) -> bool {
    let q = lowercase_of(query);
    ||| contains(lowercase_of(m.message_type), q)
    ||| contains(lowercase_of(m.sending_facility), q)
    ||| contains(lowercase_of(text_or_empty(m.patient_name)), q)
    ||| contains(lowercase_of(text_or_empty(m.patient_id)), q)
    ||| contains(lowercase_of(m.message_control_id), q)
    ||| contains(m.source_addr, query)
}

/// The summaries of the messages of `s` that answer `query`, in the order
/// of `s`.
pub open spec fn select(s: Seq<MessageView>, query: Seq<char>) -> Seq<SummaryView>
    decreases s.len(),
{
    if s.len() == 0 {
        Seq::<SummaryView>::empty()
    } else if answers(s.last(), query) {
        select(s.drop_last(), query).push(summary_of(s.last()))
    } else {
        select(s.drop_last(), query)
    }
}

/// The summaries of the messages of `q` that answer `query`, newest first.
pub open spec fn hits(q: Seq<MessageView>, query: Seq<char>) -> Seq<SummaryView> {
    select(q.reverse(), query)
}

/// The first `limit` elements of `s`, or all of them where there are fewer.
pub open spec fn first_n(s: Seq<SummaryView>, limit: nat) -> Seq<SummaryView> {
    if limit <= s.len() {
        s.take(limit as int)
    } else {
        s
    }
}

/// What is selected from a prefix opens what is selected from the whole.
pub proof fn lemma_select_prefix(s: Seq<MessageView>, query: Seq<char>, k: int)
    requires
        0 <= k <= s.len(),
    ensures
        select(s.take(k), query).len() <= select(s, query).len(),
        select(s.take(k), query) == select(s, query).take(select(s.take(k), query).len() as int),
    decreases s.len() - k,
{
    if k == s.len() {
        assert(s.take(k) =~= s);
        assert(select(s, query).take(select(s, query).len() as int) =~= select(s, query));
    } else {
        lemma_select_prefix(s, query, k + 1);
        assert(s.take(k + 1).drop_last() =~= s.take(k));
        let a = select(s.take(k), query);
        let b = select(s.take(k + 1), query);
        assert(a =~= b.take(a.len() as int));
        assert(a =~= select(s, query).take(a.len() as int));
    }
}

/// Whether `needle` is part of the lower-case form of `field`.
fn folded_contains(field: &str, needle: &Vec<char>) -> (r: bool)
    ensures
        r == contains(lowercase_of(field@), needle@),
{
    let low = to_lowercase(field);
    let hay = to_chars(low.as_str());
    contains_chars(&hay, needle)
}

/// Whether `needle` is part of the lower-case form of an optional field.
fn folded_contains_opt(field: &Option<String>, needle: &Vec<char>) -> (r: bool)
    ensures
        r == contains(lowercase_of(text_or_empty(opt_text(*field))), needle@),
{
    match field {
        Some(s) => folded_contains(s.as_str(), needle),
        None => {
            proof {
                assert(""@ =~= Seq::<char>::empty()) by {
                    reveal_strlit("");
                }
            }
            folded_contains("", needle)
        },
    }
}

/// Whether `m` answers a query, given the query's characters and the
/// characters of its lower-case form.
fn answers_query(m: &Hl7Message, raw_query: &Vec<char>, low_query: &Vec<char>) -> (r: bool)
    ensures
        low_query@ == lowercase_of(raw_query@) ==> r == answers(m@, raw_query@),
{
    if folded_contains(m.message_type.as_str(), low_query) {
        return true;
    }
    if folded_contains(m.sending_facility.as_str(), low_query) {
        return true;
    }
    if folded_contains_opt(&m.patient_name, low_query) {
        return true;
    }
    if folded_contains_opt(&m.patient_id, low_query) {
        return true;
    }
    if folded_contains(m.message_control_id.as_str(), low_query) {
        return true;
    }
    let addr = to_chars(m.source_addr.as_str());
    contains_chars(&addr, raw_query)
}

/// The state of the store.
pub struct StoreInner {
    messages: VecDeque<Hl7Message>,
    capacity: usize,
    max_bytes: usize,
    current_bytes: u128,
}

impl StoreInner {
    /// The messages held, oldest first.
    pub closed spec fn queue(&self) -> Seq<MessageView> {
        message_views(self.messages@)
    }

    /// The byte counter.
    pub closed spec fn byte_counter(&self) -> nat {
        self.current_bytes as nat
    }

    /// The count limit.
    pub closed spec fn count_cap(&self) -> nat {
        self.capacity as nat
    }

    /// The byte limit.
    pub closed spec fn byte_cap(&self) -> nat {
        self.max_bytes as nat
    }

    /// The invariant of the store: the byte counter is the sum of the payload
    /// sizes held, and a store with a positive count limit holds no more
    /// messages than it.
    pub open spec fn wf(&self) -> bool {
        &&& self.byte_counter() == total_bytes(self.queue())
        &&& forall|i: int|
            0 <= i < self.queue().len() ==> raw_len(#[trigger] self.queue()[i]) <= usize::MAX
        &&& self.count_cap() > 0 ==> self.queue().len() <= self.count_cap()
    }

    /// An empty store with the given limits.
    pub fn new(capacity: usize, max_bytes: usize) -> (s: Self)
        ensures
            s.wf(),
            s.queue() == Seq::<MessageView>::empty(),
            s.count_cap() == capacity,
            s.byte_cap() == max_bytes,
    {
        let s = StoreInner {
            messages: VecDeque::with_capacity(1024),
            capacity,
            max_bytes,
            current_bytes: 0,
        };
        assert(s.queue() =~= Seq::<MessageView>::empty());
        s
    }

    /// Takes `msg` into the store and returns the event to publish. Where the
    /// byte counter has reached the byte limit or the count has reached the
    /// count limit, the oldest tenth of the messages leaves first.
    pub fn insert(&mut self, msg: Hl7Message) -> (ev: StoreEvent)
        requires
            old(self).wf(),
        ensures
            final(self).wf(),
            final(self).count_cap() == old(self).count_cap(),
            final(self).byte_cap() == old(self).byte_cap(),
            final(self).queue() == after_insert(
                old(self).queue(),
                msg@,
                old(self).count_cap(),
                old(self).byte_cap(),
            ),
            ev matches StoreEvent::NewMessage(s) && s@ == summary_of(msg@),
    {
        let summary = Hl7MessageSummary::of(&msg);
        let ghost q0 = self.queue();
        let count: usize = self.messages.len();
        let size: usize = msg.raw.as_str().as_bytes().len();
        proof {
            lemma_total_bound(q0);
            assert(q0.len() * usize::MAX + usize::MAX <= u128::MAX) by (nonlinear_arith)
                requires
                    q0.len() <= usize::MAX,
                    usize::MAX <= 0xffff_ffff_ffff_ffff,
            ;
        }
        if self.current_bytes >= self.max_bytes as u128 || count >= self.capacity {
            let drain_count: usize = if count == 0 {
                0
            } else if count < 10 {
                1
            } else {
                count / 10
            };
            let mut freed: u128 = 0;
            let mut j: usize = 0;
            assert(q0.take(0) =~= Seq::<MessageView>::empty());
            assert(q0.skip(0) =~= q0);
            while j < drain_count
                invariant
                    j <= drain_count <= q0.len(),
                    self.queue() == q0.skip(j as int),
                    freed == total_bytes(q0.take(j as int)),
                    self.current_bytes == total_bytes(q0),
                    self.capacity == old(self).capacity,
                    self.max_bytes == old(self).max_bytes,
                decreases drain_count - j,
            {
                let ghost before = self.messages@;
                proof {
                    lemma_total_split(q0, j + 1);
                    assert(q0.take(j + 1).drop_last() =~= q0.take(j as int));
                    assert(q0.take(j + 1).last() == q0[j as int]);
                    assert(q0.skip(j as int)[0] == q0[j as int]);
                }
                match self.messages.pop_front() {
                    Some(m) => {
                        assert(m@ == message_views(before)[0]);
                        freed = freed + m.raw.as_str().as_bytes().len() as u128;
                    },
                    None => {
                        assert(message_views(before).len() == 0);
                    },
                }
                proof {
                    let now = message_views(self.messages@);
                    assert(message_views(before).len() == before.len());
                    assert(now.len() == q0.skip(j + 1).len());
                    assert forall|i: int| 0 <= i < now.len() implies now[i] == q0.skip(j + 1)[i] by {
                        assert(self.messages@[i] == before[i + 1]);
                        assert(message_views(before)[i + 1] == q0.skip(j as int)[i + 1]);
                    }
                    assert(now =~= q0.skip(j + 1));
                }
                j += 1;
            }
            proof {
                lemma_total_split(q0, drain_count as int);
            }
            self.current_bytes = self.current_bytes.saturating_sub(freed);
        }
        let ghost kept = self.queue();
        proof {
            lemma_total_push(kept, msg@);
            lemma_total_split(q0, q0.len() - kept.len());
        }
        self.current_bytes = self.current_bytes + size as u128;
        self.messages.push_back(msg);
        assert(message_views(self.messages@) =~= kept.push(msg@));
        StoreEvent::NewMessage(Box::new(summary))
    }

    /// Empties the store and returns the event to publish.
    pub fn clear(&mut self) -> (ev: StoreEvent)
        ensures
            final(self).wf(),
            final(self).queue() == Seq::<MessageView>::empty(),
            final(self).byte_counter() == 0,
            final(self).count_cap() == old(self).count_cap(),
            final(self).byte_cap() == old(self).byte_cap(),
            ev is Cleared,
    {
        self.messages.clear();
        self.current_bytes = 0;
        assert(self.queue() =~= Seq::<MessageView>::empty());
        StoreEvent::Cleared
    }

    /// The summaries of the messages held, newest first, without the first
    /// `offset` and no more than `limit` of them.
    pub fn list_summaries(&self, offset: usize, limit: usize) -> (r: Vec<Hl7MessageSummary>)
        ensures
            summary_views(r@) == window(newest_first(self.queue()), offset as nat, limit as nat),
    {
        let n: usize = self.messages.len();
        let from: usize = if offset <= n {
            offset
        } else {
            n
        };
        let to: usize = if limit <= n - from {
            from + limit
        } else {
            n
        };
        let ghost all = newest_first(self.queue());
        let mut out: Vec<Hl7MessageSummary> = Vec::new();
        let mut i: usize = from;
        while i < to
            invariant
                from <= i <= to <= n,
                n == self.messages@.len(),
                all == newest_first(self.queue()),
                out@.len() == i - from,
                forall|k: int| 0 <= k < out@.len() ==> (#[trigger] out@[k])@ == all[from + k],
            decreases to - i,
        {
            let m = &self.messages[n - 1 - i];
            assert(self.queue()[n - 1 - i] == m@);
            out.push(Hl7MessageSummary::of(m));
            i += 1;
        }
        assert(summary_views(out@) =~= all.subrange(from as int, to as int));
        out
    }

    /// A copy of the oldest message held that carries the identity `id`.
    pub fn get_by_id(&self, id: &str) -> (r: Option<Hl7Message>)
        ensures
            r matches Some(m) ==> find_id(self.queue(), id@) == Some(m@),
            r is None ==> find_id(self.queue(), id@) is None,
    {
        let n: usize = self.messages.len();
        let ghost q = self.queue();
        let mut i: usize = 0;
        assert(q.subrange(0, n as int) =~= q);
        while i < n
            invariant
                i <= n,
                n == self.messages@.len(),
                q == self.queue(),
                find_id(q, id@) == find_id(q.subrange(i as int, n as int), id@),
            decreases n - i,
        {
            let m = &self.messages[i];
            assert(q[i as int] == m@);
            assert(q.subrange(i as int, n as int).drop_first() =~= q.subrange(i + 1, n as int));
            if same_text(m.id.as_str(), id) {
                return Some(m.clone());
            }
            i += 1;
        }
        None
    }

    /// The summaries of the messages that answer `query`, newest first, no
    /// more than `limit` of them.
    pub fn search(&self, query: &str, limit: usize) -> (r: Vec<Hl7MessageSummary>)
        ensures
            summary_views(r@) == first_n(hits(self.queue(), query@), limit as nat),
    {
        let raw_query = to_chars(query);
        let low = to_lowercase(query);
        let low_query = to_chars(low.as_str());
        let n: usize = self.messages.len();
        let ghost order = self.queue().reverse();
        let mut out: Vec<Hl7MessageSummary> = Vec::new();
        let mut k: usize = 0;
        assert(order.take(0) =~= Seq::<MessageView>::empty());
        assert(summary_views(out@) =~= Seq::<SummaryView>::empty());
        while k < n && out.len() < limit
            invariant
                k <= n,
                n == self.messages@.len(),
                order == self.queue().reverse(),
                raw_query@ == query@,
                low_query@ == lowercase_of(query@),
                out@.len() <= limit,
                summary_views(out@) == select(order.take(k as int), query@),
            decreases n - k,
        {
            let m = &self.messages[n - 1 - k];
            proof {
                assert(order[k as int] == m@);
                assert(order.take(k + 1).drop_last() =~= order.take(k as int));
                assert(order.take(k + 1).last() == order[k as int]);
            }
            if answers_query(m, &raw_query, &low_query) {
                let ghost before = summary_views(out@);
                out.push(Hl7MessageSummary::of(m));
                assert(summary_views(out@) =~= before.push(summary_of(m@)));
            }
            k += 1;
        }
        proof {
            lemma_select_prefix(order, query@, k as int);
            if k == n {
                assert(order.take(k as int) =~= order);
            }
        }
        out
    }

    /// The number of messages held.
    pub fn count(&self) -> (n: usize)
        ensures
            n == self.queue().len(),
    {
        self.messages.len()
    }

    /// The sum of the payload sizes held.
    pub fn bytes(&self) -> (n: u128)
        ensures
            n == self.byte_counter(),
    {
        self.current_bytes
    }
}

/// The sending half of a notification channel.
#[verifier::external_type_specification]
#[verifier::external_body]
#[verifier::reject_recursive_types(T)]
pub struct ExSender<T>(Sender<T>);

/// The receiving half of a notification channel.
#[verifier::external_type_specification]
#[verifier::external_body]
#[verifier::reject_recursive_types(T)]
pub struct ExReceiver<T>(Receiver<T>);

/// The position that the next event gets which the channel takes: the
/// number of events that it has taken so far, counted from zero and starting
/// over behind `u64::MAX`.
pub uninterp spec fn write_position(tx: Sender<StoreEvent>) -> u64;

/// The position of the event that the receiver reads next.
pub uninterp spec fn read_position(rx: Receiver<StoreEvent>) -> u64;

/// The position behind `n`.
pub open spec fn following(n: u64) -> u64 {
    if n == u64::MAX {
        0
    } else {
        (n + 1) as u64
    }
}

/// Opens a notification channel that keeps `capacity` events for a slow
/// subscriber, and returns its sending half.
///
/// Trusted: `tokio::sync::broadcast::channel`, which gives up on a capacity
/// of zero or above half of `usize::MAX`. A new channel has taken no event:
/// it starts at position zero.
#[verifier::external_body]
fn open_channel(capacity: usize) -> (tx: Sender<StoreEvent>)
    requires
        0 < capacity <= usize::MAX / 2,
    ensures
        write_position(tx) == 0,
{
    tokio::sync::broadcast::channel(capacity).0
}

/// Hands an event to every subscriber of the channel, without waiting for
/// any of them.
///
/// Trusted: `tokio::sync::broadcast::Sender::send`. With a receiver alive the
/// channel takes the event and moves on by one position; with none it hands
/// the event back and stays where it is, which is no failure here. Which of
/// the two happens is not claimed, nor what the subscribers receive.
#[verifier::external_body]
fn publish(tx: &mut Sender<StoreEvent>, event: StoreEvent)
    ensures
        write_position(*final(tx)) == write_position(*old(tx)) || write_position(*final(tx))
            == following(write_position(*old(tx))),
{
    let _ = tx.send(event);
}

/// A new subscriber, which sees the events published from now on.
///
/// Trusted: `tokio::sync::broadcast::Sender::subscribe`, which sets the new
/// receiver to the position that the channel writes next, so that it reads
/// none of the events taken before. The call gives up once a quarter of
/// `usize::MAX` receivers are alive.
#[verifier::external_body]
fn new_subscriber(tx: &Sender<StoreEvent>) -> (rx: Receiver<StoreEvent>)
    ensures
        read_position(rx) == write_position(*tx),
{
    tx.subscribe()
}

/// The message store with its notification channel. Every insertion and
/// every clearing is published to the subscribers.
pub struct MessageStore {
    inner: StoreInner,
    tx: Sender<StoreEvent>,
}

impl MessageStore {
    /// The state of the store.
    pub closed spec fn state(&self) -> StoreInner {
        self.inner
    }

    /// The position of the store's channel: how many events it has taken so
    /// far, which is the position that the next one gets.
    pub closed spec fn channel_position(&self) -> u64 {
        write_position(self.tx)
    }

    /// An empty store with the limits of `config`.
    pub fn new(config: StoreConfig) -> (s: Self)
        requires
            config.fits(),
        ensures
            s.state().wf(),
            s.state().queue() == Seq::<MessageView>::empty(),
            s.state().count_cap() == config.max_messages,
            s.state().byte_cap() == config.max_memory_mb * crate::config::BYTES_PER_MB,
            s.channel_position() == 0,
    {
        MessageStore {
            inner: StoreInner::new(config.max_messages, config.max_memory_bytes()),
            tx: open_channel(BROADCAST_CAPACITY),
        }
    }

    /// Takes `msg` into the store, as [`StoreInner::insert`] does, and
    /// publishes its summary. The channel takes the event, and moves on by
    /// one position, where somebody listens.
    pub fn insert(&mut self, msg: Hl7Message)
        requires
            old(self).state().wf(),
        ensures
            final(self).state().wf(),
            final(self).state().count_cap() == old(self).state().count_cap(),
            final(self).state().byte_cap() == old(self).state().byte_cap(),
            final(self).state().queue() == after_insert(
                old(self).state().queue(),
                msg@,
                old(self).state().count_cap(),
                old(self).state().byte_cap(),
            ),
            ({
                let before = old(self).channel_position();
                let after = final(self).channel_position();
                after == before || after == following(before)
            }),
    {
        let event = self.inner.insert(msg);
        publish(&mut self.tx, event);
    }

    /// A receiver for the events published from now on: it stands at the
    /// position that the channel writes next, behind every event published
    /// so far, and so replays none of them.
    pub fn subscribe(&self) -> (rx: Receiver<StoreEvent>)
        ensures
            read_position(rx) == self.channel_position(),
    {
        new_subscriber(&self.tx)
    }

    /// The summaries of the messages held, newest first, without the first
    /// `offset` and no more than `limit` of them.
    pub fn list_summaries(&self, offset: usize, limit: usize) -> (r: Vec<Hl7MessageSummary>)
        ensures
            summary_views(r@) == window(
                newest_first(self.state().queue()),
                offset as nat,
                limit as nat,
            ),
    {
        self.inner.list_summaries(offset, limit)
    }

    /// A copy of the oldest message held that carries the identity `id`.
    pub fn get_by_id(&self, id: &str) -> (r: Option<Hl7Message>)
        ensures
            r matches Some(m) ==> find_id(self.state().queue(), id@) == Some(m@),
            r is None ==> find_id(self.state().queue(), id@) is None,
    {
        self.inner.get_by_id(id)
    }

    /// The summaries of the messages that answer `query`, newest first, no
    /// more than `limit` of them.
    pub fn search(&self, query: &str, limit: usize) -> (r: Vec<Hl7MessageSummary>)
        ensures
            summary_views(r@) == first_n(hits(self.state().queue(), query@), limit as nat),
    {
        self.inner.search(query, limit)
    }

    /// The number of messages held.
    pub fn count(&self) -> (n: usize)
        ensures
            n == self.state().queue().len(),
    {
        self.inner.count()
    }

    /// The sum of the payload sizes held.
    pub fn bytes(&self) -> (n: u128)
        ensures
            n == self.state().byte_counter(),
    {
        self.inner.bytes()
    }

    /// Empties the store and publishes that it did. The channel takes the
    /// event, and moves on by one position, where somebody listens.
    pub fn clear(&mut self)
        ensures
            final(self).state().wf(),
            final(self).state().queue() == Seq::<MessageView>::empty(),
            final(self).state().byte_counter() == 0,
            final(self).state().count_cap() == old(self).state().count_cap(),
            final(self).state().byte_cap() == old(self).state().byte_cap(),
            ({
                let before = old(self).channel_position();
                let after = final(self).channel_position();
                after == before || after == following(before)
            }),
    {
        let event = self.inner.clear();
        publish(&mut self.tx, event);
    }
}

} // verus!

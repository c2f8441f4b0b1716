//! The single timeline that several tracks form under one clock, as a
//! function of the tracks' event sequences, and what holds of it.

use vstd::prelude::*;

use crate::song::Event;

verus! {

/// The leading events of `q` up to its first wait: what happens at once.
pub open spec fn head(q: Seq<Event>) -> Seq<Event>
    decreases q.len(),
{
    if q.len() == 0 || q[0] is Wait {
        Seq::empty()
    } else {
        seq![q[0]] + head(q.drop_first())
    }
}

/// What is left of `q` from its first wait on.
pub open spec fn tail(q: Seq<Event>) -> Seq<Event>
    decreases q.len(),
{
    if q.len() == 0 || q[0] is Wait {
        q
    } else {
        tail(q.drop_first())
    }
}

/// The wait that `q` starts with, if it starts with one.
pub open spec fn lead(q: Seq<Event>) -> Option<u32> {
    if q.len() > 0 {
        match q[0] {
            Event::Wait(ms) => Some(ms),
            _ => None,
        }
    } else {
        None
    }
}

/// The shorter of two waits, where there are two.
pub open spec fn shorter(a: Option<u32>, b: Option<u32>) -> Option<u32> {
    match (a, b) {
        (Some(x), Some(y)) => if x <= y {
            Some(x)
        } else {
            Some(y)
        },
        (Some(x), None) => Some(x),
        (None, _) => b,
    }
}

/// The heads of all queues, one after the other in the order of the queues.
pub open spec fn heads(qs: Seq<Seq<Event>>) -> Seq<Event>
    decreases qs.len(),
{
    if qs.len() == 0 {
        Seq::empty()
    } else {
        heads(qs.drop_last()) + head(qs.last())
    }
}

/// Every queue without its head.
pub open spec fn tails(qs: Seq<Seq<Event>>) -> Seq<Seq<Event>> {
    Seq::new(qs.len(), |i: int| tail(qs[i]))
}

/// The shortest wait that any queue starts with.
pub open spec fn next_wait(qs: Seq<Seq<Event>>) -> Option<u32>
    decreases qs.len(),
{
    if qs.len() == 0 {
        None
    } else {
        shorter(next_wait(qs.drop_last()), lead(qs.last()))
    }
}

/// `q` after `w` milliseconds have passed: its leading wait is shortened by
/// `w`, and leaves the queue once nothing is left of it.
pub open spec fn advance_one(q: Seq<Event>, w: u32) -> Seq<Event> {
    match lead(q) {
        Some(ms) => if ms <= w {
            q.drop_first()
        } else {
            q.update(0, Event::Wait((ms - w) as u32))
        },
        None => q,
    }
}

/// Every queue after `w` milliseconds have passed.
pub open spec fn advanced(qs: Seq<Seq<Event>>, w: u32) -> Seq<Seq<Event>> {
    Seq::new(qs.len(), |i: int| advance_one(qs[i], w))
}

/// Number of events in all queues together.
pub open spec fn total_len(qs: Seq<Seq<Event>>) -> nat
    decreases qs.len(),
{
    if qs.len() == 0 {
        0
    } else {
        total_len(qs.drop_last()) + qs.last().len()
    }
}

/// The timeline of the tracks `qs`: what all tracks do at this instant, track
/// by track in their order; then the time until the next instant at which
/// some track goes on, and the timeline of what is left after that time.
pub open spec fn merged(qs: Seq<Seq<Event>>) -> Seq<Event>
    decreases total_len(qs),
{
    match next_wait(tails(qs)) {
        None => heads(qs),
        Some(w) => {
            proof {
                lemma_advance_shrinks(qs, w);
            }
            heads(qs) + seq![Event::Wait(w)] + merged(advanced(tails(qs), w))
        },
    }
}

/// Milliseconds that the waits of `s` add up to.
pub open spec fn sum_waits(s: Seq<Event>) -> nat
    decreases s.len(),
{
    if s.len() == 0 {
        0
    } else {
        (match s[0] {
            Event::Wait(ms) => ms as nat,
            _ => 0nat,
        }) + sum_waits(s.drop_first())
    }
}

/// Number of events in `s` that are no waits.
pub open spec fn count_notes(s: Seq<Event>) -> nat
    decreases s.len(),
{
    if s.len() == 0 {
        0
    } else {
        (if s[0] is Wait {
            0nat
        } else {
            1nat
        }) + count_notes(s.drop_first())
    }
}

/// Duration in milliseconds of the longest of the tracks `qs`.
pub open spec fn longest(qs: Seq<Seq<Event>>) -> nat
    decreases qs.len(),
{
    if qs.len() == 0 {
        0
    } else {
        let before = longest(qs.drop_last());
        let last = sum_waits(qs.last());
        if before >= last {
            before
        } else {
            last
        }
    }
}

/// Number of events in all the tracks `qs` that are no waits.
pub open spec fn total_notes(qs: Seq<Seq<Event>>) -> nat
    decreases qs.len(),
{
    if qs.len() == 0 {
        0
    } else {
        total_notes(qs.drop_last()) + count_notes(qs.last())
    }
}

/// Every queue is empty or starts with a wait.
pub open spec fn aligned(qs: Seq<Seq<Event>>) -> bool {
    forall|i: int| 0 <= i < qs.len() ==> (#[trigger] qs[i]).len() == 0 || qs[i][0] is Wait
}

/// A queue is its head followed by its tail; the head holds no wait, and the
/// tail is empty or starts with one.
pub proof fn lemma_head_tail(q: Seq<Event>)
    ensures
        head(q) + tail(q) == q,
        tail(q).len() == 0 || tail(q)[0] is Wait,
        forall|k: int| 0 <= k < head(q).len() ==> !(#[trigger] head(q)[k] is Wait),
    decreases q.len(),
{
    if q.len() == 0 || q[0] is Wait {
        assert(head(q) + tail(q) =~= q);
    } else {
        lemma_head_tail(q.drop_first());
        let rest = q.drop_first();
        assert(head(q) + tail(q) =~= seq![q[0]] + (head(rest) + tail(rest)));
        assert(seq![q[0]] + rest =~= q);
        assert forall|k: int| 0 <= k < head(q).len() implies !(#[trigger] head(q)[k] is Wait) by {
            if k > 0 {
                assert(head(q)[k] == head(rest)[k - 1]);
            }
        }
    }
}

/// The tails of any queues are aligned.
pub proof fn lemma_tails_aligned(qs: Seq<Seq<Event>>)
    ensures
        aligned(tails(qs)),
{
    assert forall|i: int| 0 <= i < tails(qs).len() implies (#[trigger] tails(qs)[i]).len() == 0
        || tails(qs)[i][0] is Wait by {
        lemma_head_tail(qs[i]);
    }
}

/// The shortest leading wait is the leading wait of some queue and no longer
/// than any other; there is none only where no queue starts with a wait.
pub proof fn lemma_next_wait(qs: Seq<Seq<Event>>)
    ensures
        match next_wait(qs) {
            Some(w) => (exists|i: int| 0 <= i < qs.len() && lead(#[trigger] qs[i]) == Some(w))
                && forall|i: int|
                0 <= i < qs.len() && lead(#[trigger] qs[i]) is Some ==> w <= lead(qs[i]).unwrap(),
            None => forall|i: int| 0 <= i < qs.len() ==> lead(#[trigger] qs[i]) is None,
        },
    decreases qs.len(),
{
    if qs.len() > 0 {
        let before = qs.drop_last();
        lemma_next_wait(before);
        assert forall|i: int| 0 <= i < before.len() implies before[i] == qs[i] by {}
        match next_wait(qs) {
            Some(w) => {
                if lead(qs.last()) == Some(w) {
                    assert(lead(qs[qs.len() - 1]) == Some(w));
                } else {
                    let i = choose|i: int| 0 <= i < before.len() && lead(#[trigger] before[i]) == Some(w);
                    assert(lead(qs[i]) == Some(w));
                }
                assert forall|i: int| 0 <= i < qs.len() && lead(#[trigger] qs[i]) is Some implies w
                    <= lead(qs[i]).unwrap() by {
                    if i < before.len() {
                        assert(before[i] == qs[i]);
                    }
                }
            },
            None => {
                assert forall|i: int| 0 <= i < qs.len() implies lead(#[trigger] qs[i]) is None by {
                    if i < before.len() {
                        assert(before[i] == qs[i]);
                    }
                }
            },
        }
    }
}

/// Queues that are nowhere longer hold no more events in all.
pub proof fn lemma_total_len_le(a: Seq<Seq<Event>>, b: Seq<Seq<Event>>)
    requires
        a.len() == b.len(),
        forall|i: int| 0 <= i < a.len() ==> (#[trigger] a[i]).len() <= b[i].len(),
    ensures
        total_len(a) <= total_len(b),
    decreases a.len(),
{
    if a.len() > 0 {
        assert(a.last().len() <= b[a.len() - 1].len());
        lemma_total_len_le(a.drop_last(), b.drop_last());
    }
}

/// Queues that are nowhere longer, and shorter at `at`, hold fewer events.
pub proof fn lemma_total_len_lt(a: Seq<Seq<Event>>, b: Seq<Seq<Event>>, at: int)
    requires
        a.len() == b.len(),
        forall|i: int| 0 <= i < a.len() ==> (#[trigger] a[i]).len() <= b[i].len(),
        0 <= at < a.len(),
        a[at].len() < b[at].len(),
    ensures
        total_len(a) < total_len(b),
    decreases a.len(),
{
    assert(a.last().len() <= b[a.len() - 1].len());
    if at == a.len() - 1 {
        lemma_total_len_le(a.drop_last(), b.drop_last());
    } else {
        assert(a.drop_last()[at] == a[at]);
        lemma_total_len_lt(a.drop_last(), b.drop_last(), at);
    }
}

/// Letting the shortest leading wait pass uses up at least one event.
pub proof fn lemma_advance_shrinks(qs: Seq<Seq<Event>>, w: u32)
    requires
        next_wait(tails(qs)) == Some(w),
    ensures
        total_len(advanced(tails(qs), w)) < total_len(qs),
{
    let rest = tails(qs);
    let next = advanced(rest, w);
    lemma_next_wait(rest);
    let at = choose|i: int| 0 <= i < rest.len() && lead(#[trigger] rest[i]) == Some(w);
    assert forall|i: int| 0 <= i < next.len() implies (#[trigger] next[i]).len() <= qs[i].len() by {
        lemma_head_tail(qs[i]);
        assert(qs[i].len() == head(qs[i]).len() + tail(qs[i]).len());
    }
    lemma_head_tail(qs[at]);
    assert(qs[at].len() == head(qs[at]).len() + tail(qs[at]).len());
    assert(next[at].len() < qs[at].len());
    lemma_total_len_lt(next, qs, at);
}

/// The waits of a concatenation add up.
pub proof fn lemma_sum_waits_concat(a: Seq<Event>, b: Seq<Event>)
    ensures
        sum_waits(a + b) == sum_waits(a) + sum_waits(b),
    decreases a.len(),
{
    if a.len() == 0 {
        assert(a + b =~= b);
    } else {
        assert((a + b).drop_first() =~= a.drop_first() + b);
        lemma_sum_waits_concat(a.drop_first(), b);
    }
}

/// The notes of a concatenation add up.
pub proof fn lemma_count_notes_concat(a: Seq<Event>, b: Seq<Event>)
    ensures
        count_notes(a + b) == count_notes(a) + count_notes(b),
    decreases a.len(),
{
    if a.len() == 0 {
        assert(a + b =~= b);
    } else {
        assert((a + b).drop_first() =~= a.drop_first() + b);
        lemma_count_notes_concat(a.drop_first(), b);
    }
}

/// A head takes no time and holds all the notes that its tail lacks.
pub proof fn lemma_head_tail_sums(q: Seq<Event>)
    ensures
        sum_waits(head(q)) == 0,
        sum_waits(tail(q)) == sum_waits(q),
        count_notes(head(q)) + count_notes(tail(q)) == count_notes(q),
    decreases q.len(),
{
    if q.len() == 0 || q[0] is Wait {
    } else {
        lemma_head_tail_sums(q.drop_first());
        assert(head(q).drop_first() =~= head(q.drop_first()));
    }
}

/// The heads of all queues take no time, and with the tails they hold every
/// note; the tails last as long as the queues.
pub proof fn lemma_heads_tails_sums(qs: Seq<Seq<Event>>)
    ensures
        sum_waits(heads(qs)) == 0,
        count_notes(heads(qs)) + total_notes(tails(qs)) == total_notes(qs),
        longest(tails(qs)) == longest(qs),
    decreases qs.len(),
{
    if qs.len() > 0 {
        let before = qs.drop_last();
        lemma_heads_tails_sums(before);
        lemma_head_tail_sums(qs.last());
        lemma_sum_waits_concat(heads(before), head(qs.last()));
        lemma_count_notes_concat(heads(before), head(qs.last()));
        assert(tails(qs).drop_last() =~= tails(before));
    } else {
        assert(tails(qs) =~= qs);
    }
}

/// Letting `w` milliseconds pass takes `w` off a queue that starts with a
/// wait of at least `w`, and no note from any queue.
pub proof fn lemma_advance_one_sums(q: Seq<Event>, w: u32)
    requires
        lead(q) is Some ==> w <= lead(q).unwrap(),
    ensures
        lead(q) is Some ==> sum_waits(advance_one(q, w)) + w == sum_waits(q),
        count_notes(advance_one(q, w)) == count_notes(q),
{
    match lead(q) {
        Some(ms) => {
            if ms > w {
                assert(advance_one(q, w).drop_first() =~= q.drop_first());
            }
        },
        None => {},
    }
}

/// Letting the shortest leading wait of aligned queues pass shortens the
/// longest of them by that wait and keeps every note.
pub proof fn lemma_advanced_sums(qs: Seq<Seq<Event>>, w: u32)
    requires
        aligned(qs),
        forall|i: int| 0 <= i < qs.len() && lead(#[trigger] qs[i]) is Some ==> w <= lead(qs[i]).unwrap(),
    ensures
        next_wait(qs) is Some ==> longest(advanced(qs, w)) + w == longest(qs),
        next_wait(qs) is None ==> longest(qs) == 0 && longest(advanced(qs, w)) == 0,
        total_notes(advanced(qs, w)) == total_notes(qs),
    decreases qs.len(),
{
    if qs.len() > 0 {
        let before = qs.drop_last();
        let q = qs.last();
        assert forall|i: int| 0 <= i < before.len() implies before[i] == qs[i] by {}
        assert(aligned(before)) by {
            assert forall|i: int| 0 <= i < before.len() implies (#[trigger] before[i]).len() == 0
                || before[i][0] is Wait by {
                assert(before[i] == qs[i]);
            }
        }
        assert forall|i: int| 0 <= i < before.len() && lead(#[trigger] before[i]) is Some implies w
            <= lead(before[i]).unwrap() by {
            assert(before[i] == qs[i]);
        }
        lemma_advanced_sums(before, w);
        assert(q == qs[qs.len() - 1]);
        lemma_advance_one_sums(q, w);
        assert(advanced(qs, w).drop_last() =~= advanced(before, w));
        assert(advanced(qs, w).last() == advance_one(q, w));
        if q.len() == 0 {
            assert(advance_one(q, w) == q);
        }
    }
}

/// The timeline lasts as long as the longest track.
pub proof fn lemma_merged_duration(qs: Seq<Seq<Event>>)
    ensures
        sum_waits(merged(qs)) == longest(qs),
    decreases total_len(qs),
{
    let rest = tails(qs);
    lemma_heads_tails_sums(qs);
    lemma_tails_aligned(qs);
    lemma_next_wait(rest);
    match next_wait(rest) {
        None => {
            lemma_advanced_sums(rest, 0);
        },
        Some(w) => {
            lemma_advance_shrinks(qs, w);
            lemma_advanced_sums(rest, w);
            lemma_merged_duration(advanced(rest, w));
            let now = heads(qs) + seq![Event::Wait(w)];
            lemma_sum_waits_concat(heads(qs), seq![Event::Wait(w)]);
            lemma_sum_waits_concat(now, merged(advanced(rest, w)));
            assert(sum_waits(seq![Event::Wait(w)]) == w) by {
                assert(seq![Event::Wait(w)].drop_first() =~= Seq::<Event>::empty());
                assert(sum_waits(Seq::<Event>::empty()) == 0);
            }
        },
    }
}

/// The timeline holds as many notes as all the tracks together.
pub proof fn lemma_merged_note_count(qs: Seq<Seq<Event>>)
    ensures
        count_notes(merged(qs)) == total_notes(qs),
    decreases total_len(qs),
{
    let rest = tails(qs);
    lemma_heads_tails_sums(qs);
    lemma_tails_aligned(qs);
    lemma_next_wait(rest);
    match next_wait(rest) {
        None => {
            lemma_no_lead_no_notes(rest);
        },
        Some(w) => {
            lemma_advance_shrinks(qs, w);
            lemma_advanced_sums(rest, w);
            lemma_merged_note_count(advanced(rest, w));
            let now = heads(qs) + seq![Event::Wait(w)];
            lemma_count_notes_concat(heads(qs), seq![Event::Wait(w)]);
            lemma_count_notes_concat(now, merged(advanced(rest, w)));
            assert(count_notes(seq![Event::Wait(w)]) == 0) by {
                assert(seq![Event::Wait(w)].drop_first() =~= Seq::<Event>::empty());
                assert(count_notes(Seq::<Event>::empty()) == 0);
            }
        },
    }
}

/// Aligned queues of which none starts with a wait are empty.
pub proof fn lemma_no_lead_no_notes(qs: Seq<Seq<Event>>)
    requires
        aligned(qs),
        forall|i: int| 0 <= i < qs.len() ==> lead(#[trigger] qs[i]) is None,
    ensures
        total_notes(qs) == 0,
        total_len(qs) == 0,
        forall|i: int| 0 <= i < qs.len() ==> (#[trigger] qs[i]).len() == 0,
    decreases qs.len(),
{
    assert forall|i: int| 0 <= i < qs.len() implies (#[trigger] qs[i]).len() == 0 by {
        assert(lead(qs[i]) is None);
    }
    if qs.len() > 0 {
        let before = qs.drop_last();
        assert forall|i: int| 0 <= i < before.len() implies before[i] == qs[i] by {}
        assert(aligned(before)) by {
            assert forall|i: int| 0 <= i < before.len() implies (#[trigger] before[i]).len() == 0
                || before[i][0] is Wait by {
                assert(before[i] == qs[i]);
            }
        }
        assert forall|i: int| 0 <= i < before.len() implies lead(#[trigger] before[i]) is None by {
            assert(before[i] == qs[i]);
        }
        lemma_no_lead_no_notes(before);
        assert(qs.last() == qs[qs.len() - 1]);
    }
}

/// What the tracks do at one instant comes out track by track, in the order
/// of the tracks: the timeline opens with the head of the first track, then
/// that of the second and so on, and goes on in the same way after the wait
/// that follows them, if any does. For two tracks the opening is the head of
/// the first and then the head of the second, be they equal or not.
pub proof fn lemma_merged_starts_with_heads(qs: Seq<Seq<Event>>)
    ensures
        heads(qs).is_prefix_of(merged(qs)),
        qs.len() == 2 ==> heads(qs) == head(qs[0]) + head(qs[1]),
        next_wait(tails(qs)) is None ==> merged(qs) == heads(qs),
        next_wait(tails(qs)) is Some ==> merged(qs) == heads(qs) + seq![
            Event::Wait(next_wait(tails(qs)).unwrap()),
        ] + merged(advanced(tails(qs), next_wait(tails(qs)).unwrap())),
{
    match next_wait(tails(qs)) {
        None => {},
        Some(w) => {
            let m = heads(qs) + seq![Event::Wait(w)] + merged(advanced(tails(qs), w));
            assert(m.subrange(0, heads(qs).len() as int) =~= heads(qs));
        },
    }
    if qs.len() == 2 {
        let one = qs.drop_last();
        assert(one.drop_last() =~= Seq::<Seq<Event>>::empty());
        assert(heads(one.drop_last()) =~= Seq::<Event>::empty());
        assert(heads(one) =~= head(qs[0]));
    }
}

/// A sequence without waits takes no time.
pub proof fn lemma_no_waits_no_time(s: Seq<Event>)
    requires
        forall|k: int| 0 <= k < s.len() ==> !(#[trigger] s[k] is Wait),
    ensures
        sum_waits(s) == 0,
    decreases s.len(),
{
    if s.len() > 0 {
        let rest = s.drop_first();
        assert forall|k: int| 0 <= k < rest.len() implies !(#[trigger] rest[k] is Wait) by {
            assert(rest[k] == s[k + 1]);
        }
        lemma_no_waits_no_time(rest);
    }
}

/// The heads of all queues hold no wait.
pub proof fn lemma_heads_no_waits(qs: Seq<Seq<Event>>)
    ensures
        forall|k: int| 0 <= k < heads(qs).len() ==> !(#[trigger] heads(qs)[k] is Wait),
    decreases qs.len(),
{
    if qs.len() > 0 {
        let before = qs.drop_last();
        lemma_heads_no_waits(before);
        lemma_head_tail(qs.last());
        assert forall|k: int| 0 <= k < heads(qs).len() implies !(#[trigger] heads(qs)[k] is Wait) by {
            if k < heads(before).len() {
                assert(heads(qs)[k] == heads(before)[k]);
            } else {
                assert(heads(qs)[k] == head(qs.last())[k - heads(before).len()]);
            }
        }
    }
}

/// A note of a queue stands in its head, at time 0, or in its tail behind the
/// wait that the tail starts with, as late there as in the queue.
pub proof fn lemma_note_in_head_or_tail(q: Seq<Event>, p: int)
    requires
        0 <= p < q.len(),
        !(q[p] is Wait),
    ensures
        p < head(q).len() ==> head(q)[p] == q[p] && sum_waits(q.take(p)) == 0,
        p >= head(q).len() ==> {
            let k = p - head(q).len();
            &&& 1 <= k < tail(q).len()
            &&& tail(q)[k] == q[p]
            &&& sum_waits(tail(q).take(k)) == sum_waits(q.take(p))
        },
{
    lemma_head_tail(q);
    let h = head(q);
    let t = tail(q);
    assert(q.len() == h.len() + t.len());
    if p < h.len() {
        assert(q[p] == (h + t)[p]);
        assert(q.take(p) =~= h.take(p));
        assert forall|k: int| 0 <= k < h.take(p).len() implies !(#[trigger] h.take(p)[k] is Wait) by {
            assert(h.take(p)[k] == h[k]);
        }
        lemma_no_waits_no_time(h.take(p));
    } else {
        let k = p - h.len();
        assert(q[p] == (h + t)[p]);
        assert(t[k] == q[p]);
        assert(q.take(p) =~= h + t.take(k));
        lemma_sum_waits_concat(h, t.take(k));
        lemma_no_waits_no_time(h);
    }
}

/// What a queue's head holds, the heads of all queues hold: the place of
/// entry `p` of the head of queue `i` among the heads.
pub proof fn lemma_heads_index(qs: Seq<Seq<Event>>, i: int, p: int) -> (k: int)
    requires
        0 <= i < qs.len(),
        0 <= p < head(qs[i]).len(),
    ensures
        0 <= k < heads(qs).len(),
        heads(qs)[k] == head(qs[i])[p],
    decreases qs.len(),
{
    let before = qs.drop_last();
    if i == qs.len() - 1 {
        heads(before).len() + p
    } else {
        assert(before[i] == qs[i]);
        lemma_heads_index(before, i, p)
    }
}

/// Letting `w` milliseconds pass makes everything behind the leading wait of
/// a queue `w` milliseconds earlier.
pub proof fn lemma_advance_one_time(q: Seq<Event>, w: u32, k: int) -> (at: int)
    requires
        lead(q) is Some,
        w <= lead(q).unwrap(),
        1 <= k < q.len(),
    ensures
        0 <= at < advance_one(q, w).len(),
        advance_one(q, w)[at] == q[k],
        sum_waits(advance_one(q, w).take(at)) + w == sum_waits(q.take(k)),
{
    let ms = lead(q).unwrap();
    let next = advance_one(q, w);
    assert(q.take(k).drop_first() =~= q.drop_first().take(k - 1));
    if ms <= w {
        assert(next.take(k - 1) =~= q.drop_first().take(k - 1));
        k - 1
    } else {
        assert(next.take(k).drop_first() =~= q.drop_first().take(k - 1));
        k
    }
}

/// Every note of every track stands in the timeline, and at its own time: as
/// many milliseconds of waits come before it there as in its track. The
/// result is a place in the timeline where it stands.
pub proof fn lemma_merged_keeps_time(qs: Seq<Seq<Event>>, i: int, p: int) -> (k: int)
    requires
        0 <= i < qs.len(),
        0 <= p < qs[i].len(),
        !(qs[i][p] is Wait),
    ensures
        0 <= k < merged(qs).len(),
        merged(qs)[k] == qs[i][p],
        sum_waits(merged(qs).take(k)) == sum_waits(qs[i].take(p)),
    decreases total_len(qs),
{
    let event = qs[i][p];
    let rest = tails(qs);
    lemma_note_in_head_or_tail(qs[i], p);
    lemma_heads_no_waits(qs);
    if p < head(qs[i]).len() {
        let k = lemma_heads_index(qs, i, p);
        assert(merged(qs)[k] == event);
        assert(merged(qs).take(k) =~= heads(qs).take(k));
        assert forall|j: int| 0 <= j < heads(qs).take(k).len() implies !(#[trigger] heads(qs).take(
            k,
        )[j] is Wait) by {
            assert(heads(qs).take(k)[j] == heads(qs)[j]);
        }
        lemma_no_waits_no_time(heads(qs).take(k));
        k
    } else {
        let k = p - head(qs[i]).len();
        lemma_head_tail(qs[i]);
        assert(rest[i] == tail(qs[i]));
        assert(lead(rest[i]) is Some);
        lemma_next_wait(rest);
        let w = next_wait(rest).unwrap();
        lemma_advance_shrinks(qs, w);
        let next = advanced(rest, w);
        assert(next[i] == advance_one(rest[i], w));
        let at = lemma_advance_one_time(rest[i], w, k);
        let j = lemma_merged_keeps_time(next, i, at);
        let now = heads(qs) + seq![Event::Wait(w)];
        assert(merged(qs)[now.len() + j] == event);
        assert(merged(qs).take(now.len() + j) =~= now + merged(next).take(j));
        lemma_sum_waits_concat(now, merged(next).take(j));
        lemma_sum_waits_concat(heads(qs), seq![Event::Wait(w)]);
        lemma_no_waits_no_time(heads(qs));
        assert(sum_waits(seq![Event::Wait(w)]) == w) by {
            assert(seq![Event::Wait(w)].drop_first() =~= Seq::<Event>::empty());
            assert(sum_waits(Seq::<Event>::empty()) == 0);
        }
        now.len() + j
    }
}

/// What holds of every note of every track holds of every note of the
/// timeline: merging makes up no notes.
pub proof fn lemma_merged_notes_from_tracks(qs: Seq<Seq<Event>>, holds: spec_fn(Event) -> bool)
    requires
        forall|i: int, p: int|
            0 <= i < qs.len() && 0 <= p < qs[i].len() && !(qs[i][p] is Wait) ==> holds(
                #[trigger] qs[i][p],
            ),
    ensures
        forall|k: int|
            0 <= k < merged(qs).len() && !(merged(qs)[k] is Wait) ==> holds(#[trigger] merged(qs)[k]),
    decreases total_len(qs),
{
    let rest = tails(qs);
    lemma_heads_from_queues(qs, holds);
    assert forall|i: int, p: int|
        0 <= i < rest.len() && 0 <= p < rest[i].len() && !(rest[i][p] is Wait) implies holds(
        #[trigger] rest[i][p],
    ) by {
        lemma_head_tail(qs[i]);
        assert(qs[i][head(qs[i]).len() + p] == rest[i][p]);
    }
    match next_wait(rest) {
        None => {},
        Some(w) => {
            lemma_advance_shrinks(qs, w);
            let next = advanced(rest, w);
            assert forall|i: int, p: int|
                0 <= i < next.len() && 0 <= p < next[i].len() && !(next[i][p] is Wait) implies holds(
                #[trigger] next[i][p],
            ) by {
                assert(next[i] == advance_one(rest[i], w));
                match lead(rest[i]) {
                    Some(ms) => {
                        if ms <= w {
                            assert(next[i][p] == rest[i][p + 1]);
                        } else {
                            assert(p > 0);
                            assert(next[i][p] == rest[i][p]);
                        }
                    },
                    None => {},
                }
            }
            lemma_merged_notes_from_tracks(next, holds);
            let now = heads(qs) + seq![Event::Wait(w)];
            assert forall|k: int| 0 <= k < merged(qs).len() && !(merged(qs)[k] is Wait) implies holds(
                #[trigger] merged(qs)[k],
            ) by {
                if k < heads(qs).len() {
                    assert(merged(qs)[k] == heads(qs)[k]);
                } else if k >= now.len() {
                    assert(merged(qs)[k] == merged(next)[k - now.len()]);
                }
            }
        },
    }
}

/// What holds of every note of every queue holds of all that the heads hold.
pub proof fn lemma_heads_from_queues(qs: Seq<Seq<Event>>, holds: spec_fn(Event) -> bool)
    requires
        forall|i: int, p: int|
            0 <= i < qs.len() && 0 <= p < qs[i].len() && !(qs[i][p] is Wait) ==> holds(
                #[trigger] qs[i][p],
            ),
    ensures
        forall|k: int| 0 <= k < heads(qs).len() ==> holds(#[trigger] heads(qs)[k]),
    decreases qs.len(),
{
    if qs.len() > 0 {
        let before = qs.drop_last();
        assert forall|i: int, p: int|
            0 <= i < before.len() && 0 <= p < before[i].len() && !(before[i][p] is Wait) implies holds(
            #[trigger] before[i][p],
        ) by {
            assert(before[i] == qs[i]);
        }
        lemma_heads_from_queues(before, holds);
        let q = qs.last();
        lemma_head_tail(q);
        assert forall|k: int| 0 <= k < heads(qs).len() implies holds(#[trigger] heads(qs)[k]) by {
            if k >= heads(before).len() {
                let p = k - heads(before).len();
                assert(heads(qs)[k] == head(q)[p]);
                assert(q[p] == head(q)[p]);
                assert(qs[qs.len() - 1][p] == head(q)[p]);
            }
        }
    }
}

/// Every wait of `s` is followed by a note: no two waits stand in a row, and
/// none stands at the end.
pub open spec fn steady(s: Seq<Event>) -> bool {
    forall|k: int| 0 <= k < s.len() && #[trigger] s[k] is Wait ==> k + 1 < s.len() && !(s[k + 1] is Wait)
}

/// What is left of a steady sequence from some place on is steady.
pub proof fn lemma_steady_skip(s: Seq<Event>, n: int)
    requires
        steady(s),
        0 <= n <= s.len(),
    ensures
        steady(s.skip(n)),
{
    let rest = s.skip(n);
    assert forall|k: int| 0 <= k < rest.len() && #[trigger] rest[k] is Wait implies k + 1 < rest.len()
        && !(rest[k + 1] is Wait) by {
        assert(rest[k] == s[k + n]);
        assert(s[k + n] is Wait);
        assert(rest[k + 1] == s[k + n + 1]);
    }
}

/// The timeline of steady tracks is steady: where every wait of every track
/// is followed by a note, so is every wait of the timeline.
pub proof fn lemma_merged_steady(qs: Seq<Seq<Event>>)
    requires
        forall|i: int| 0 <= i < qs.len() ==> steady(#[trigger] qs[i]),
    ensures
        steady(merged(qs)),
    decreases total_len(qs),
{
    let rest = tails(qs);
    lemma_heads_no_waits(qs);
    assert forall|i: int| 0 <= i < rest.len() implies steady(#[trigger] rest[i]) by {
        lemma_head_tail(qs[i]);
        assert(steady(qs[i]));
        assert(rest[i] =~= qs[i].skip(head(qs[i]).len() as int));
        lemma_steady_skip(qs[i], head(qs[i]).len() as int);
    }
    match next_wait(rest) {
        None => {},
        Some(w) => {
            lemma_advance_shrinks(qs, w);
            lemma_next_wait(rest);
            let next = advanced(rest, w);
            assert forall|i: int| 0 <= i < next.len() implies steady(#[trigger] next[i]) by {
                assert(steady(rest[i]));
                assert(next[i] == advance_one(rest[i], w));
                match lead(rest[i]) {
                    Some(ms) => {
                        if ms <= w {
                            assert(next[i] =~= rest[i].skip(1));
                            lemma_steady_skip(rest[i], 1);
                        } else {
                            assert(rest[i][0] is Wait);
                            assert forall|k: int|
                                0 <= k < next[i].len() && #[trigger] next[i][k] is Wait implies k + 1
                                < next[i].len() && !(next[i][k + 1] is Wait) by {
                                assert(rest[i][k] is Wait);
                            }
                        }
                    },
                    None => {},
                }
            }
            lemma_merged_steady(next);
            let at = choose|i: int| 0 <= i < rest.len() && lead(#[trigger] rest[i]) == Some(w);
            assert(steady(rest[at]));
            assert(rest[at][0] is Wait);
            assert(next[at] == advance_one(rest[at], w));
            assert(next[at] =~= rest[at].drop_first());
            assert(next[at][0] == rest[at][1]);
            assert(head(next[at]).len() > 0);
            let first = lemma_heads_index(next, at, 0);
            lemma_heads_no_waits(next);
            lemma_merged_starts_with_heads(next);
            let after = merged(next);
            assert(after[0] == heads(next)[0]);
            let now = heads(qs) + seq![Event::Wait(w)];
            let all = merged(qs);
            assert(all == now + after);
            assert forall|k: int| 0 <= k < all.len() && #[trigger] all[k] is Wait implies k + 1
                < all.len() && !(all[k + 1] is Wait) by {
                if k < heads(qs).len() {
                    assert(all[k] == heads(qs)[k]);
                } else if k == heads(qs).len() {
                    assert(all[k + 1] == after[0]);
                } else {
                    assert(all[k] == after[k - now.len()]);
                    assert(all[k + 1] == after[k - now.len() + 1]);
                }
            }
        },
    }
}

/// The notes of `s`, in their order, without the waits between them.
pub open spec fn notes_of(s: Seq<Event>) -> Seq<Event>
    decreases s.len(),
{
    if s.len() == 0 {
        Seq::empty()
    } else if s[0] is Wait {
        notes_of(s.drop_first())
    } else {
        seq![s[0]] + notes_of(s.drop_first())
    }
}

/// Whether the entries of `a` stand in `b`, in the order they have in `a`,
/// with whatever else between them.
pub open spec fn embeds(a: Seq<Event>, b: Seq<Event>) -> bool
    decreases b.len(),
{
    if a.len() == 0 {
        true
    } else if b.len() == 0 {
        false
    } else {
        (a[0] == b[0] && embeds(a.drop_first(), b.drop_first())) || embeds(a, b.drop_first())
    }
}

/// Two sequences that stand in two others stand, one after the other, in
/// those two one after the other.
pub proof fn lemma_embeds_concat(a1: Seq<Event>, b1: Seq<Event>, a2: Seq<Event>, b2: Seq<Event>)
    requires
        embeds(a1, b1),
        embeds(a2, b2),
    ensures
        embeds(a1 + a2, b1 + b2),
    decreases b1.len(),
{
    if b1.len() == 0 {
        assert(a1.len() == 0);
        assert(a1 + a2 =~= a2);
        assert(b1 + b2 =~= b2);
    } else {
        assert((b1 + b2).drop_first() =~= b1.drop_first() + b2);
        if a1.len() == 0 {
            assert(a1 + a2 =~= a2);
            lemma_embeds_concat(a1, b1.drop_first(), a2, b2);
            assert(a1 + a2 =~= a2);
        } else if a1[0] == b1[0] && embeds(a1.drop_first(), b1.drop_first()) {
            lemma_embeds_concat(a1.drop_first(), b1.drop_first(), a2, b2);
            assert((a1 + a2).drop_first() =~= a1.drop_first() + a2);
        } else {
            lemma_embeds_concat(a1, b1.drop_first(), a2, b2);
        }
    }
}

/// Every sequence stands in itself.
pub proof fn lemma_embeds_self(a: Seq<Event>)
    ensures
        embeds(a, a),
    decreases a.len(),
{
    if a.len() > 0 {
        lemma_embeds_self(a.drop_first());
    }
}

/// The head of every queue stands in the heads of all.
pub proof fn lemma_heads_embed(qs: Seq<Seq<Event>>, i: int)
    requires
        0 <= i < qs.len(),
    ensures
        embeds(head(qs[i]), heads(qs)),
    decreases qs.len(),
{
    let before = qs.drop_last();
    let none = Seq::<Event>::empty();
    if i == qs.len() - 1 {
        lemma_embeds_self(head(qs[i]));
        lemma_embeds_concat(none, heads(before), head(qs[i]), head(qs[i]));
        assert(none + head(qs[i]) =~= head(qs[i]));
    } else {
        assert(before[i] == qs[i]);
        lemma_heads_embed(before, i);
        lemma_embeds_concat(head(qs[i]), heads(before), none, head(qs.last()));
        assert(head(qs[i]) + none =~= head(qs[i]));
    }
}

/// The notes of a queue are its head and the notes of its tail.
pub proof fn lemma_notes_of_head_tail(q: Seq<Event>)
    ensures
        notes_of(q) == head(q) + notes_of(tail(q)),
    decreases q.len(),
{
    if q.len() == 0 || q[0] is Wait {
        assert(head(q) + notes_of(tail(q)) =~= notes_of(q));
    } else {
        lemma_notes_of_head_tail(q.drop_first());
        let rest = q.drop_first();
        assert(seq![q[0]] + (head(rest) + notes_of(tail(rest))) =~= head(q) + notes_of(tail(q)));
    }
}

/// The notes of every track stand in the timeline in the order they have in
/// the track.
pub proof fn lemma_merged_keeps_order(qs: Seq<Seq<Event>>, i: int)
    requires
        0 <= i < qs.len(),
    ensures
        embeds(notes_of(qs[i]), merged(qs)),
    decreases total_len(qs),
{
    let rest = tails(qs);
    let none = Seq::<Event>::empty();
    lemma_notes_of_head_tail(qs[i]);
    lemma_heads_embed(qs, i);
    lemma_tails_aligned(qs);
    lemma_next_wait(rest);
    assert(rest[i] == tail(qs[i]));
    match next_wait(rest) {
        None => {
            lemma_no_lead_no_notes(rest);
            assert(rest[i].len() == 0);
            assert(notes_of(qs[i]) =~= head(qs[i]));
        },
        Some(w) => {
            lemma_advance_shrinks(qs, w);
            let next = advanced(rest, w);
            lemma_merged_keeps_order(next, i);
            assert(next[i] == advance_one(rest[i], w));
            assert(notes_of(next[i]) == notes_of(rest[i])) by {
                match lead(rest[i]) {
                    Some(ms) => {
                        if ms > w {
                            assert(next[i].drop_first() =~= rest[i].drop_first());
                        }
                    },
                    None => {},
                }
            }
            let pause = seq![Event::Wait(w)];
            lemma_embeds_concat(none, pause, notes_of(rest[i]), merged(next));
            assert(none + notes_of(rest[i]) =~= notes_of(rest[i]));
            lemma_embeds_concat(
                head(qs[i]),
                heads(qs),
                notes_of(rest[i]),
                pause + merged(next),
            );
            assert(heads(qs) + (pause + merged(next)) =~= merged(qs));
        },
    }
}

} // verus!

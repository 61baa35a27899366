//! What holds between opening a nesting level and closing it again.

use crate::drilling::{
    child_groups, converted, drilled, drilled_one, drilled_upto, gather_step, gathered_from,
    group_at, group_rest, group_step, grouped_from, nothing_gathered, nothing_grouped,
    present_part, present_upto, presence, stands_for_absent, vectorized, vectorized_inner,
    Gathering, Grouping,
};
use crate::PacketView;
use vstd::prelude::*;

verus! {

/// What a stream is once a nesting level was opened and closed again: every
/// packet has its group as payload, under its own flags; a packet without
/// payload is as it was.
pub open spec fn regrouped<T, B>(s: Seq<PacketView<T>>, groups: Seq<Seq<B>>) -> Seq<
    PacketView<Seq<B>>,
> {
    Seq::new(
        s.len(),
        |i: int|
            PacketView {
                data: if s[i].data is Some {
                    Some(groups[i])
                } else {
                    None
                },
                last: s[i].last,
            },
    )
}

/// The state after `k` packets depends on the first `k` packets only.
proof fn lemma_gathered_agree<T>(
    st: Gathering<T>,
    s1: Seq<PacketView<T>>,
    s2: Seq<PacketView<T>>,
    k: int,
)
    requires
        forall|i: int| 0 <= i < k ==> s1[i] == s2[i],
    ensures
        gathered_from(st, s1, k) == gathered_from(st, s2, k),
    decreases k,
{
    if k > 0 {
        lemma_gathered_agree(st, s1, s2, k - 1);
    }
}

/// Collecting over two streams in a row is collecting over the second from
/// where the first one ended.
proof fn lemma_gathered_concat<T>(
    st: Gathering<T>,
    a: Seq<PacketView<T>>,
    b: Seq<PacketView<T>>,
    j: int,
)
    requires
        0 <= j <= b.len(),
    ensures
        gathered_from(st, a + b, a.len() + j) == gathered_from(
            gathered_from(st, a, a.len() as int),
            b,
            j,
        ),
    decreases j,
{
    if j == 0 {
        lemma_gathered_agree(st, a + b, a, a.len() as int);
    } else {
        lemma_gathered_concat(st, a, b, j - 1);
        assert((a + b)[a.len() + j - 1] == b[j - 1]);
    }
}

/// Inside a group the payloads pile up and no packet is made.
proof fn lemma_gathered_inside<T, B>(st: Gathering<B>, e: PacketView<T>, group: Seq<B>, j: int)
    requires
        st.pending.len() == 0,
        e.data is Some,
        0 <= j < group.len(),
    ensures
        gathered_from(st, drilled_one(e, group), j) == (Gathering {
            done: st.done,
            pending: group.take(j),
        }),
    decreases j,
{
    if j == 0 {
        assert(st.pending =~= group.take(0));
    } else {
        lemma_gathered_inside(st, e, group, j - 1);
        let packet = drilled_one(e, group)[j - 1];
        assert(packet.last =~= e.last.push(false));
        assert(group.take(j - 1).push(group[j - 1]) =~= group.take(j));
    }
}

/// The packets of one element, collected, are one packet with the group of
/// that element.
proof fn lemma_gathered_one<T, B>(st: Gathering<B>, e: PacketView<T>, group: Seq<B>)
    requires
        st.pending.len() == 0,
    ensures
        gathered_from(st, drilled_one(e, group), drilled_one(e, group).len() as int) == (Gathering {
            done: st.done.push(
                PacketView {
                    data: if e.data is Some {
                        Some(group)
                    } else {
                        None
                    },
                    last: e.last,
                },
            ),
            pending: Seq::empty(),
        }),
{
    let packets = drilled_one(e, group);
    let n = packets.len() as int;
    if e.data is None {
        assert(gathered_from(st, packets, 0) == st);
        assert(e.last.push(false).drop_last() =~= e.last);
        assert(gathered_from(st, packets, 1) == gather_step(st, packets[0]));
    } else if group.len() == 0 {
        assert(gathered_from(st, packets, 0) == st);
        assert(e.last.push(true).drop_last() =~= e.last);
        assert(st.pending =~= group);
        assert(gathered_from(st, packets, 1) == gather_step(st, packets[0]));
    } else {
        lemma_gathered_inside(st, e, group, n - 1);
        let packet = packets[n - 1];
        assert(packet.last =~= e.last.push(true));
        assert(e.last.push(true).drop_last() =~= e.last);
        assert(group.take(n - 1).push(group[n - 1]) =~= group);
        assert(gathered_from(st, packets, n) == gather_step(
            gathered_from(st, packets, n - 1),
            packet,
        ));
    }
}

/// Collected, the packets of the first `k` elements are those elements with
/// their groups as payloads.
proof fn lemma_gathered_drilled<T, B>(s: Seq<PacketView<T>>, groups: Seq<Seq<B>>, k: int)
    requires
        groups.len() == s.len(),
        0 <= k <= s.len(),
    ensures
        gathered_from(
            nothing_gathered(),
            drilled_upto(s, groups, k),
            drilled_upto(s, groups, k).len() as int,
        ) == (Gathering { done: regrouped(s, groups).take(k), pending: Seq::empty() }),
    decreases k,
{
    let start = nothing_gathered::<B>();
    if k == 0 {
        assert(regrouped(s, groups).take(0) =~= start.done);
    } else {
        lemma_gathered_drilled(s, groups, k - 1);
        let before = drilled_upto(s, groups, k - 1);
        let one = drilled_one(s[k - 1], groups[k - 1]);
        let mid = gathered_from(start, before, before.len() as int);
        lemma_gathered_concat(start, before, one, one.len() as int);
        lemma_gathered_one(mid, s[k - 1], groups[k - 1]);
        assert(regrouped(s, groups).take(k - 1).push(regrouped(s, groups)[k - 1]) =~= regrouped(
            s,
            groups,
        ).take(k));
    }
}

/// Closing the level that `drill` opened gives every element its group back:
/// the items in their order, an empty group where there was no item, and no
/// payload where the element had none.
pub proof fn lemma_vectorize_inner_of_drilled<T, B>(s: Seq<PacketView<T>>, groups: Seq<Seq<B>>)
    requires
        groups.len() == s.len(),
    ensures
        vectorized_inner(drilled(s, groups)) == regrouped(s, groups),
{
    lemma_gathered_drilled(s, groups, s.len() as int);
    assert(regrouped(s, groups).take(s.len() as int) =~= regrouped(s, groups));
}

/// A flat sequence that is made a stream, drilled into and closed again is
/// the stream of the groups.
pub proof fn lemma_vectorize_inner_of_converted<T, B>(items: Seq<T>, groups: Seq<Seq<B>>)
    requires
        groups.len() == items.len(),
    ensures
        vectorized_inner(drilled(converted(items), groups)) == converted(groups),
{
    lemma_vectorize_inner_of_drilled(converted(items), groups);
    assert(regrouped(converted(items), groups) =~= converted(groups));
}

/// What the groups of a stream are once a nesting level was opened: for every
/// packet the items of its group, each under the flags of the packet.
pub open spec fn group_packets<T, B>(s: Seq<PacketView<T>>, groups: Seq<Seq<B>>) -> Seq<
    Seq<PacketView<B>>,
> {
    Seq::new(
        s.len(),
        |i: int|
            Seq::new(
                groups[i].len(),
                |j: int| PacketView { data: Some(groups[i][j]), last: s[i].last },
            ),
    )
}

/// The state after `k` packets depends on the first `k` packets only.
proof fn lemma_grouped_agree<T>(
    st: Grouping<T>,
    s1: Seq<PacketView<T>>,
    s2: Seq<PacketView<T>>,
    k: int,
)
    requires
        forall|i: int| 0 <= i < k ==> s1[i] == s2[i],
    ensures
        grouped_from(st, s1, k) == grouped_from(st, s2, k),
    decreases k,
{
    if k > 0 {
        lemma_grouped_agree(st, s1, s2, k - 1);
    }
}

/// Grouping two streams in a row is grouping the second from where the first
/// one ended.
proof fn lemma_grouped_concat<T>(
    st: Grouping<T>,
    a: Seq<PacketView<T>>,
    b: Seq<PacketView<T>>,
    j: int,
)
    requires
        0 <= j <= b.len(),
    ensures
        grouped_from(st, a + b, a.len() + j) == grouped_from(
            grouped_from(st, a, a.len() as int),
            b,
            j,
        ),
    decreases j,
{
    if j == 0 {
        lemma_grouped_agree(st, a + b, a, a.len() as int);
    } else {
        lemma_grouped_concat(st, a, b, j - 1);
        assert((a + b)[a.len() + j - 1] == b[j - 1]);
    }
}

/// The packets of one group, as far as they are taken in.
pub open spec fn group_taken<T, B>(e: PacketView<T>, group: Seq<B>, j: int) -> Seq<PacketView<B>> {
    Seq::new(j as nat, |x: int| PacketView { data: Some(group[x]), last: e.last })
}

/// Inside a group the packets pile up and no group is closed.
proof fn lemma_grouped_inside<T, B>(st: Grouping<B>, e: PacketView<T>, group: Seq<B>, j: int)
    requires
        st.pending.len() == 0,
        e.data is Some,
        0 <= j < group.len(),
    ensures
        grouped_from(st, drilled_one(e, group), j) == (Grouping {
            done: st.done,
            pending: group_taken(e, group, j),
        }),
    decreases j,
{
    if j == 0 {
        assert(st.pending =~= group_taken(e, group, 0));
    } else {
        lemma_grouped_inside(st, e, group, j - 1);
        let packet = drilled_one(e, group)[j - 1];
        assert(packet.last =~= e.last.push(false));
        assert(e.last.push(false).drop_last() =~= e.last);
        assert(group_taken(e, group, j - 1).push(
            PacketView { data: Some(group[j - 1]), last: e.last },
        ) =~= group_taken(e, group, j));
    }
}

/// The packets of one element with a payload, grouped, are one group.
proof fn lemma_grouped_one<T, B>(st: Grouping<B>, e: PacketView<T>, group: Seq<B>)
    requires
        st.pending.len() == 0,
        e.data is Some,
    ensures
        grouped_from(st, drilled_one(e, group), drilled_one(e, group).len() as int) == (Grouping {
            done: st.done.push(group_taken(e, group, group.len() as int)),
            pending: Seq::empty(),
        }),
{
    let packets = drilled_one(e, group);
    let n = packets.len() as int;
    if group.len() == 0 {
        assert(grouped_from(st, packets, 0) == st);
        assert(st.pending =~= group_taken(e, group, 0));
        assert(grouped_from(st, packets, 1) == group_step(st, packets[0]));
    } else {
        lemma_grouped_inside(st, e, group, n - 1);
        let packet = packets[n - 1];
        assert(packet.last =~= e.last.push(true));
        assert(e.last.push(true).drop_last() =~= e.last);
        assert(group_taken(e, group, n - 1).push(
            PacketView { data: Some(group[n - 1]), last: e.last },
        ) =~= group_taken(e, group, n));
        assert(grouped_from(st, packets, n) == group_step(
            grouped_from(st, packets, n - 1),
            packet,
        ));
    }
}

/// Grouped, the packets of the first `k` elements are the groups of those
/// elements.
proof fn lemma_grouped_drilled<T, B>(s: Seq<PacketView<T>>, groups: Seq<Seq<B>>, k: int)
    requires
        groups.len() == s.len(),
        0 <= k <= s.len(),
        forall|i: int| 0 <= i < s.len() ==> (#[trigger] s[i]).data is Some,
    ensures
        grouped_from(
            nothing_grouped(),
            drilled_upto(s, groups, k),
            drilled_upto(s, groups, k).len() as int,
        ) == (Grouping { done: group_packets(s, groups).take(k), pending: Seq::empty() }),
    decreases k,
{
    let start = nothing_grouped::<B>();
    if k == 0 {
        assert(group_packets(s, groups).take(0) =~= start.done);
    } else {
        lemma_grouped_drilled(s, groups, k - 1);
        let before = drilled_upto(s, groups, k - 1);
        let one = drilled_one(s[k - 1], groups[k - 1]);
        let mid = grouped_from(start, before, before.len() as int);
        lemma_grouped_concat(start, before, one, one.len() as int);
        lemma_grouped_one(mid, s[k - 1], groups[k - 1]);
        assert(group_taken(s[k - 1], groups[k - 1], groups[k - 1].len() as int) =~= group_packets(
            s,
            groups,
        )[k - 1]);
        assert(group_packets(s, groups).take(k - 1).push(group_packets(s, groups)[k - 1])
            =~= group_packets(s, groups).take(k));
    }
}

/// Grouping the packets that `drill` made of elements with payloads gives
/// every element the packets of its group, under the flags of the element: as
/// many as the group has items, none for an empty group.
pub proof fn lemma_vectorize_of_drilled<T, B>(s: Seq<PacketView<T>>, groups: Seq<Seq<B>>)
    requires
        groups.len() == s.len(),
        forall|i: int| 0 <= i < s.len() ==> (#[trigger] s[i]).data is Some,
    ensures
        vectorized(drilled(s, groups)) == group_packets(s, groups),
{
    lemma_grouped_drilled(s, groups, s.len() as int);
    assert(group_packets(s, groups).take(s.len() as int) =~= group_packets(s, groups));
}

/// The groups that the elements take: for an element with a payload its own
/// group, for one without payload nothing.
pub open spec fn taken_groups<T, B>(s: Seq<PacketView<T>>, groups: Seq<Seq<B>>) -> Seq<Seq<B>> {
    Seq::new(
        s.len(),
        |i: int|
            if s[i].data is Some {
                groups[i]
            } else {
                Seq::empty()
            },
    )
}

/// The packets that the first `k` elements own in the stream that is drilled
/// out of them: those of every element with a payload.
pub open spec fn owned_upto<T, B>(s: Seq<PacketView<T>>, groups: Seq<Seq<B>>, k: int) -> Seq<
    PacketView<B>,
>
    decreases k,
{
    if k <= 0 {
        Seq::empty()
    } else if s[k - 1].data is Some {
        owned_upto(s, groups, k - 1) + drilled_one(s[k - 1], groups[k - 1])
    } else {
        owned_upto(s, groups, k - 1)
    }
}

/// The packets that the first `k` elements own stand at the front of those
/// that the first `n` own.
proof fn lemma_owned_prefix<T, B>(s: Seq<PacketView<T>>, groups: Seq<Seq<B>>, k: int, n: int)
    requires
        0 <= k <= n,
    ensures
        owned_upto(s, groups, k).len() <= owned_upto(s, groups, n).len(),
        owned_upto(s, groups, n).take(owned_upto(s, groups, k).len() as int) == owned_upto(
            s,
            groups,
            k,
        ),
    decreases n - k,
{
    let short = owned_upto(s, groups, k);
    if k == n {
        assert(owned_upto(s, groups, n).take(short.len() as int) =~= short);
    } else {
        lemma_owned_prefix(s, groups, k, n - 1);
        assert(owned_upto(s, groups, n).take(short.len() as int) =~= owned_upto(
            s,
            groups,
            n - 1,
        ).take(short.len() as int));
    }
}

/// From inside the packets of a group, the rest of the group is found.
proof fn lemma_group_rest_run<T, B>(
    child: Seq<PacketView<B>>,
    c: int,
    e: PacketView<T>,
    group: Seq<B>,
    j: int,
)
    requires
        e.data is Some,
        0 <= c,
        0 <= j < group.len(),
        c + group.len() <= child.len(),
        forall|x: int| 0 <= x < group.len() ==> child[c + x] == drilled_one(e, group)[x],
    ensures
        group_rest(child, c + j, group.take(j)) == Some((group, c + group.len())),
    decreases group.len() - j,
{
    let packet = drilled_one(e, group)[j];
    assert(child[c + j] == packet);
    assert(packet.last =~= e.last.push(j == group.len() - 1));
    assert(group.take(j).push(group[j]) =~= group.take(j + 1));
    if j == group.len() - 1 {
        assert(group.take(j + 1) =~= group);
    } else {
        lemma_group_rest_run(child, c, e, group, j + 1);
    }
}

/// Out of the packets that they own, the first `k` elements take their
/// groups, and each element leaves off where the packets of the next one
/// start.
proof fn lemma_child_groups_of_owned<T, B>(s: Seq<PacketView<T>>, groups: Seq<Seq<B>>, k: int)
    requires
        groups.len() == s.len(),
        0 <= k <= s.len(),
    ensures
        child_groups(presence(s), owned_upto(s, groups, s.len() as int), k) == Some(
            (taken_groups(s, groups).take(k), owned_upto(s, groups, k).len() as int),
        ),
    decreases k,
{
    let child = owned_upto(s, groups, s.len() as int);
    let taken = taken_groups(s, groups);
    if k == 0 {
        assert(taken.take(0) =~= Seq::<Seq<B>>::empty());
    } else {
        lemma_child_groups_of_owned(s, groups, k - 1);
        let c = owned_upto(s, groups, k - 1).len() as int;
        let e = s[k - 1];
        let group = groups[k - 1];
        if e.data is Some {
            let one = drilled_one(e, group);
            lemma_owned_prefix(s, groups, k, s.len() as int);
            assert forall|x: int| 0 <= x < one.len() implies child[c + x] == one[x] by {
                assert(child.take(owned_upto(s, groups, k).len() as int)[c + x] == owned_upto(
                    s,
                    groups,
                    k,
                )[c + x]);
            }
            assert(child[c] == one[0]);
            if group.len() == 0 {
                assert(group_at(child, c) == Some((group, c + 1)));
            } else {
                lemma_group_rest_run(child, c, e, group, 0);
                assert(group.take(0) =~= Seq::<B>::empty());
                assert(group_at(child, c) == Some((group, c + group.len())));
            }
        }
        assert(taken.take(k - 1).push(taken[k - 1]) =~= taken.take(k));
    }
}

/// Where every element has a payload, the elements own all the packets that
/// are drilled out of them.
proof fn lemma_owned_all<T, B>(s: Seq<PacketView<T>>, groups: Seq<Seq<B>>, k: int)
    requires
        0 <= k <= s.len(),
        forall|i: int| 0 <= i < s.len() ==> (#[trigger] s[i]).data is Some,
    ensures
        owned_upto(s, groups, k) == drilled_upto(s, groups, k),
    decreases k,
{
    if k > 0 {
        lemma_owned_all(s, groups, k - 1);
    }
}

/// Every element, if they all have a payload, gets exactly its own group out
/// of the stream that was drilled out of the elements: as many items as the
/// group has, and the next element starts where its group ends.
pub proof fn lemma_inject_of_drilled<T, B>(s: Seq<PacketView<T>>, groups: Seq<Seq<B>>)
    requires
        groups.len() == s.len(),
        forall|i: int| 0 <= i < s.len() ==> (#[trigger] s[i]).data is Some,
    ensures
        child_groups(presence(s), drilled(s, groups), s.len() as int) == Some(
            (groups, drilled(s, groups).len() as int),
        ),
        forall|k: int|
            0 <= k <= s.len() ==> #[trigger] child_groups(presence(s), drilled(s, groups), k)
                == Some((groups.take(k), drilled_upto(s, groups, k).len() as int)),
{
    assert(taken_groups(s, groups) =~= groups);
    lemma_owned_all(s, groups, s.len() as int);
    assert forall|k: int| 0 <= k <= s.len() implies #[trigger] child_groups(
        presence(s),
        drilled(s, groups),
        k,
    ) == Some((groups.take(k), drilled_upto(s, groups, k).len() as int)) by {
        lemma_child_groups_of_owned(s, groups, k);
        lemma_owned_all(s, groups, k);
    }
    assert(groups.take(s.len() as int) =~= groups);
}

/// Dropping the packets that stand for an element without payload goes
/// stream by stream.
proof fn lemma_present_concat<B>(a: Seq<PacketView<B>>, b: Seq<PacketView<B>>, j: int)
    requires
        0 <= j <= b.len(),
    ensures
        present_upto(a + b, a.len() + j) == present_part(a) + present_upto(b, j),
    decreases j,
{
    if j == 0 {
        lemma_present_agree(a + b, a, a.len() as int);
        assert(present_part(a) + present_upto(b, 0) =~= present_part(a));
    } else {
        lemma_present_concat(a, b, j - 1);
        assert((a + b)[a.len() + j - 1] == b[j - 1]);
        if !stands_for_absent(b[j - 1]) {
            assert(present_upto(a + b, a.len() + j) =~= present_part(a) + present_upto(b, j));
        }
    }
}

/// What is left of the first `k` packets depends on those packets only.
proof fn lemma_present_agree<B>(s1: Seq<PacketView<B>>, s2: Seq<PacketView<B>>, k: int)
    requires
        forall|i: int| 0 <= i < k ==> s1[i] == s2[i],
    ensures
        present_upto(s1, k) == present_upto(s2, k),
    decreases k,
{
    if k > 0 {
        lemma_present_agree(s1, s2, k - 1);
    }
}

/// Of the packets of an element with a payload none is dropped; the packet of
/// an element without payload is.
proof fn lemma_present_one<T, B>(e: PacketView<T>, group: Seq<B>, j: int)
    requires
        0 <= j <= drilled_one(e, group).len(),
    ensures
        present_upto(drilled_one(e, group), j) == if e.data is Some {
            drilled_one(e, group).take(j)
        } else {
            Seq::empty()
        },
    decreases j,
{
    let one = drilled_one(e, group);
    if j == 0 {
        assert(one.take(0) =~= Seq::<PacketView<B>>::empty());
    } else {
        lemma_present_one(e, group, j - 1);
        let packet = one[j - 1];
        if e.data is Some {
            if group.len() == 0 {
                assert(packet.last =~= e.last.push(true));
            }
            assert(!stands_for_absent(packet));
            assert(one.take(j - 1).push(packet) =~= one.take(j));
        } else {
            assert(packet.last =~= e.last.push(false));
            assert(stands_for_absent(packet));
        }
    }
}

/// Without the packets that stand for an element without payload, the stream
/// that is drilled out of the first `k` elements is what those elements own.
proof fn lemma_present_drilled<T, B>(s: Seq<PacketView<T>>, groups: Seq<Seq<B>>, k: int)
    requires
        0 <= k <= s.len(),
    ensures
        present_part(drilled_upto(s, groups, k)) == owned_upto(s, groups, k),
    decreases k,
{
    if k > 0 {
        lemma_present_drilled(s, groups, k - 1);
        let before = drilled_upto(s, groups, k - 1);
        let one = drilled_one(s[k - 1], groups[k - 1]);
        lemma_present_concat(before, one, one.len() as int);
        lemma_present_one(s[k - 1], groups[k - 1], one.len() as int);
        assert(one.take(one.len() as int) =~= one);
        if s[k - 1].data is None {
            assert(present_part(before) + Seq::<PacketView<B>>::empty() =~= present_part(before));
        }
    }
}

/// Once the packets that stand for an element without payload are dropped,
/// every element with a payload gets exactly its own group out of the stream
/// that was drilled out of the elements, and an element without payload
/// takes nothing.
pub proof fn lemma_inject_of_present<T, B>(s: Seq<PacketView<T>>, groups: Seq<Seq<B>>)
    requires
        groups.len() == s.len(),
    ensures
        child_groups(presence(s), present_part(drilled(s, groups)), s.len() as int) == Some(
            (taken_groups(s, groups), present_part(drilled(s, groups)).len() as int),
        ),
{
    lemma_present_drilled(s, groups, s.len() as int);
    lemma_child_groups_of_owned(s, groups, s.len() as int);
    assert(taken_groups(s, groups).take(s.len() as int) =~= taken_groups(s, groups));
}

} // verus!

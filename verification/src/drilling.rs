//! Opening and closing nesting levels of a stream.
//!
//! To drill is to replace every element of a stream by the items of one of its
//! fields, under one more flag that closes each element's group. To vectorize is
//! the way back: the innermost flag is taken off and the elements between two
//! set flags become one group.

use crate::binary::{FromTydiBinary, TydiBinary};
use crate::error::TydiError;
use crate::{
    decoded_packet, holds_packet, packet_bits, packet_bytes, views, zeros, PacketView, TydiPacket,
};
use vstd::prelude::*;
use vstd::utf8::{decode_utf8, valid_utf8};

verus! {

/// The packets of a flat sequence: one for each item, the last one flagged.
pub open spec fn converted<T>(items: Seq<T>) -> Seq<PacketView<T>> {
    Seq::new(
        items.len(),
        |i: int| PacketView { data: Some(items[i]), last: seq![i == items.len() - 1] },
    )
}

/// A clone of a value of `T` is always that value.
pub open spec fn clone_is_copy<T: Clone>() -> bool {
    forall|a: T, b: T| cloned(a, b) ==> a == b
}

/// `packets` holds one packet for each item, with a clone of it as payload;
/// the last one is flagged.
pub open spec fn holds_clones<T: Clone>(items: Seq<T>, packets: Seq<TydiPacket<T>>) -> bool {
    &&& packets.len() == items.len()
    &&& forall|i: int|
        0 <= i < items.len() ==> (#[trigger] packets[i]).last@ == seq![i == items.len() - 1] && (
        packets[i].data matches Some(c) && cloned(items[i], c))
}

/// The packets of the items of a slice.
fn convert_slice<T: Clone>(items: &[T]) -> (r: Vec<TydiPacket<T>>)
    ensures
        holds_clones(items@, r@),
        clone_is_copy::<T>() ==> views(r@) == converted(items@),
{
    let len = items.len();
    let mut result: Vec<TydiPacket<T>> = Vec::new();
    let mut i: usize = 0;
    while i < len
        invariant
            len == items@.len(),
            i <= len,
            result@.len() == i,
            forall|j: int|
                0 <= j < i ==> (#[trigger] result@[j]).last@ == seq![j == len - 1] && (
                result@[j].data matches Some(c) && cloned(items@[j], c)),
        decreases len - i,
    {
        let mut last: Vec<bool> = Vec::new();
        last.push(i == len - 1);
        assert(last@ =~= seq![i == len - 1]);
        result.push(TydiPacket { data: Some(items[i].clone()), last });
        i += 1;
    }
    proof {
        if clone_is_copy::<T>() {
            assert(views(result@) =~= converted(items@));
        }
    }
    result
}

/// A flat sequence of values that can be made a stream of one nesting level.
pub trait TydiConvert<T: Clone> {
    /// The values, in order.
    spec fn items(&self) -> Seq<T>;

    /// One packet for each value, which holds a clone of it; the last one is
    /// flagged.
    fn convert(&self) -> (r: Vec<TydiPacket<T>>)
        ensures
            holds_clones(self.items(), r@),
            clone_is_copy::<T>() ==> views(r@) == converted(self.items()),
    ;
}

impl<T: Clone> TydiConvert<T> for &[T] {
    open spec fn items(&self) -> Seq<T> {
        self@
    }

    fn convert(&self) -> (r: Vec<TydiPacket<T>>) {
        convert_slice(*self)
    }
}

impl<T: Clone> TydiConvert<T> for Vec<T> {
    open spec fn items(&self) -> Seq<T> {
        self@
    }

    fn convert(&self) -> (r: Vec<TydiPacket<T>>) {
        convert_slice(self.as_slice())
    }
}

/// The packets that the buffers stand for where `dim` nesting levels are open.
pub fn packets_from_binaries<T: FromTydiBinary>(value: Vec<TydiBinary>, dim: usize) -> (r: Vec<
    TydiPacket<T>,
>)
    requires
        forall|i: int| 0 <= i < value@.len() ==> holds_packet::<T>(#[trigger] value@[i], dim),
    ensures
        r@.len() == value@.len(),
        forall|i: int|
            0 <= i < value@.len() ==> (#[trigger] r@[i]).last@ == value@[i]@.subrange(1, 1 + dim)
                && r@[i].data is Some == value@[i]@[0],
        T::obeys_decoded() ==> forall|i: int|
            0 <= i < value@.len() ==> (#[trigger] r@[i])@ == decoded_packet::<T>(
                value@[i]@,
                dim as nat,
            ),
{
    let ghost given = value@;
    let mut result: Vec<TydiPacket<T>> = Vec::new();
    for el in it: value
        invariant
            it.seq() == given,
            forall|i: int| 0 <= i < given.len() ==> holds_packet::<T>(#[trigger] given[i], dim),
            result@.len() == it.index(),
            forall|i: int|
                0 <= i < it.index() ==> (#[trigger] result@[i]).last@ == given[i]@.subrange(
                    1,
                    1 + dim,
                ) && result@[i].data is Some == given[i]@[0],
            T::obeys_decoded() ==> forall|i: int|
                0 <= i < it.index() ==> (#[trigger] result@[i])@ == decoded_packet::<T>(
                    given[i]@,
                    dim as nat,
                ),
    {
        assert(el == given[it.index() as int]);
        result.push(TydiPacket::from_binary(el, dim));
    }
    result
}

/// The packets that one element becomes when it is drilled into: one for each
/// item of `group`, the last one flagged at the new level. An empty group
/// becomes one packet without payload, flagged at the new level; an element
/// without payload becomes one packet without payload, not flagged there.
pub open spec fn drilled_one<T, B>(e: PacketView<T>, group: Seq<B>) -> Seq<PacketView<B>> {
    if e.data is None {
        seq![PacketView { data: None, last: e.last.push(false) }]
    } else if group.len() == 0 {
        seq![PacketView { data: None, last: e.last.push(true) }]
    } else {
        Seq::new(
            group.len(),
            |j: int| PacketView { data: Some(group[j]), last: e.last.push(j == group.len() - 1) },
        )
    }
}

/// What the first `k` elements of `s` become when element `i` is drilled into
/// with the group `groups[i]`.
pub open spec fn drilled_upto<T, B>(s: Seq<PacketView<T>>, groups: Seq<Seq<B>>, k: int) -> Seq<
    PacketView<B>,
>
    decreases k,
{
    if k <= 0 {
        Seq::empty()
    } else {
        drilled_upto(s, groups, k - 1) + drilled_one(s[k - 1], groups[k - 1])
    }
}

/// What `s` becomes when element `i` is drilled into with the group
/// `groups[i]`.
pub open spec fn drilled<T, B>(s: Seq<PacketView<T>>, groups: Seq<Seq<B>>) -> Seq<PacketView<B>> {
    drilled_upto(s, groups, s.len() as int)
}

/// `group` is what `f` made of a clone of `payload`.
pub open spec fn yields<T: Clone, B, F: Fn(T) -> Vec<B>>(f: F, payload: T, group: Seq<B>) -> bool {
    exists|c: T, items: Vec<B>|
        cloned(payload, c) && #[trigger] call_ensures(f, (c,), items) && items@ == group
}

/// `groups` holds, for every packet of `s` with a payload, what `f` made of a
/// clone of that payload.
pub open spec fn groups_of<T: Clone, B, F: Fn(T) -> Vec<B>>(
    f: F,
    s: Seq<TydiPacket<T>>,
    groups: Seq<Seq<B>>,
) -> bool {
    &&& groups.len() == s.len()
    &&& forall|i: int|
        0 <= i < s.len() && (#[trigger] s[i]).data is Some ==> yields(f, s[i].data->0, groups[i])
}

/// `f` can be called on a clone of every payload of `s`.
pub open spec fn drillable<T: Clone, B, F: Fn(T) -> Vec<B>>(f: F, s: Seq<TydiPacket<T>>) -> bool {
    forall|i: int, c: T|
        #![trigger s[i], cloned(s[i].data->0, c)]
        0 <= i < s.len() && s[i].data is Some && cloned(s[i].data->0, c) ==> call_requires(f, (c,))
}

/// What the first `k` elements become depends on the first `k` groups only.
pub proof fn lemma_drilled_agree<T, B>(
    s: Seq<PacketView<T>>,
    g1: Seq<Seq<B>>,
    g2: Seq<Seq<B>>,
    k: int,
)
    requires
        forall|j: int| 0 <= j < k ==> g1[j] == g2[j],
    ensures
        drilled_upto(s, g1, k) == drilled_upto(s, g2, k),
    decreases k,
{
    if k > 0 {
        lemma_drilled_agree(s, g1, g2, k - 1);
    }
}

/// The state of collecting groups of packets: the groups that are closed, and
/// the packets of the open one.
pub struct Grouping<T> {
    pub done: Seq<Seq<PacketView<T>>>,
    pub pending: Seq<PacketView<T>>,
}

/// One packet more: it joins the open group without its innermost flag, and
/// closes the group if that flag is set. A flagged packet without payload that
/// meets an empty open group only closes it.
pub open spec fn group_step<T>(st: Grouping<T>, e: PacketView<T>) -> Grouping<T> {
    let is_end = e.last.last();
    let marker = e.data is None && is_end && st.pending.len() == 0;
    let pending = if marker {
        st.pending
    } else {
        st.pending.push(PacketView { data: e.data, last: e.last.drop_last() })
    };
    if is_end {
        Grouping { done: st.done.push(pending), pending: Seq::empty() }
    } else {
        Grouping { done: st.done, pending }
    }
}

/// The state before the first packet.
pub open spec fn nothing_grouped<T>() -> Grouping<T> {
    Grouping { done: Seq::empty(), pending: Seq::empty() }
}

/// The state after the first `k` packets of `s`, from the state `st` on.
pub open spec fn grouped_from<T>(st: Grouping<T>, s: Seq<PacketView<T>>, k: int) -> Grouping<T>
    decreases k,
{
    if k <= 0 {
        st
    } else {
        group_step(grouped_from(st, s, k - 1), s[k - 1])
    }
}

/// The groups of `s`, one nesting level below. Packets behind the last set
/// flag belong to no group.
pub open spec fn vectorized<T>(s: Seq<PacketView<T>>) -> Seq<Seq<PacketView<T>>> {
    grouped_from(nothing_grouped(), s, s.len() as int).done
}

/// What the packets of each group hold.
pub open spec fn group_views<T>(groups: Seq<Vec<TydiPacket<T>>>) -> Seq<Seq<PacketView<T>>> {
    groups.map_values(|g: Vec<TydiPacket<T>>| views(g@))
}

/// The state of collecting groups of values: the packets that are made, and
/// the values of the open group.
pub struct Gathering<T> {
    pub done: Seq<PacketView<Seq<T>>>,
    pub pending: Seq<T>,
}

/// One packet more: its payload joins the open group. If its innermost flag is
/// set, the group becomes the payload of one packet, under the other flags. A
/// packet without payload whose innermost flag is not set stands for an
/// element without payload: it becomes a packet without payload, and the open
/// group is dropped.
pub open spec fn gather_step<T>(st: Gathering<T>, e: PacketView<T>) -> Gathering<T> {
    let is_end = e.last.last();
    let rest = e.last.drop_last();
    let pending = match e.data {
        Some(v) => st.pending.push(v),
        None => st.pending,
    };
    if is_end {
        Gathering {
            done: st.done.push(PacketView { data: Some(pending), last: rest }),
            pending: Seq::empty(),
        }
    } else if e.data is None {
        Gathering {
            done: st.done.push(PacketView { data: None, last: rest }),
            pending: Seq::empty(),
        }
    } else {
        Gathering { done: st.done, pending }
    }
}

/// The state after the first `k` packets of `s`, from the state `st` on.
pub open spec fn gathered_from<T>(st: Gathering<T>, s: Seq<PacketView<T>>, k: int) -> Gathering<T>
    decreases k,
{
    if k <= 0 {
        st
    } else {
        gather_step(gathered_from(st, s, k - 1), s[k - 1])
    }
}

/// The state before the first packet.
pub open spec fn nothing_gathered<T>() -> Gathering<T> {
    Gathering { done: Seq::empty(), pending: Seq::empty() }
}

/// The packets of `s` one nesting level below, each with the values of one
/// group as its payload. Values behind the last set flag belong to no group.
pub open spec fn vectorized_inner<T>(s: Seq<PacketView<T>>) -> Seq<PacketView<Seq<T>>> {
    gathered_from(nothing_gathered(), s, s.len() as int).done
}

/// What a packet with a vector as payload holds.
pub open spec fn inner_view<T>(p: TydiPacket<Vec<T>>) -> PacketView<Seq<T>> {
    PacketView {
        data: match p.data {
            Some(v) => Some(v@),
            None => None,
        },
        last: p.last@,
    }
}

/// What packets with vectors as payloads hold.
pub open spec fn inner_views<T>(s: Seq<TydiPacket<Vec<T>>>) -> Seq<PacketView<Seq<T>>> {
    s.map_values(|p: TydiPacket<Vec<T>>| inner_view(p))
}

/// The rest of a group of which `acc` is taken already: the payloads from
/// position `c` of `child` on, up to the first packet whose innermost flag is
/// set, and the position behind that packet. There is none if `child` ends
/// before, or holds a packet without payload or without a flag there.
pub open spec fn group_rest<B>(child: Seq<PacketView<B>>, c: int, acc: Seq<B>) -> Option<
    (Seq<B>, int),
>
    decreases child.len() - c,
{
    if c < 0 || c >= child.len() {
        None
    } else if child[c].data is None || child[c].last.len() == 0 {
        None
    } else if child[c].last.last() {
        Some((acc.push(child[c].data->0), c + 1))
    } else {
        group_rest(child, c + 1, acc.push(child[c].data->0))
    }
}

/// The group that starts at position `c` of `child`, and the position behind
/// it. A packet without payload at `c` is an empty group.
pub open spec fn group_at<B>(child: Seq<PacketView<B>>, c: int) -> Option<(Seq<B>, int)> {
    if c < 0 || c >= child.len() {
        None
    } else if child[c].data is None {
        Some((Seq::empty(), c + 1))
    } else {
        group_rest(child, c, Seq::empty())
    }
}

/// The groups that the first `k` parents take out of `child`, in order, and
/// the position behind the last of them. A parent without payload takes
/// nothing. There are none if a group is missing or broken.
pub open spec fn child_groups<B>(present: Seq<bool>, child: Seq<PacketView<B>>, k: int) -> Option<
    (Seq<Seq<B>>, int),
>
    decreases k,
{
    if k <= 0 {
        Some((Seq::empty(), 0))
    } else {
        match child_groups(present, child, k - 1) {
            None => None,
            Some((groups, c)) => if !present[k - 1] {
                Some((groups.push(Seq::empty()), c))
            } else {
                match group_at(child, c) {
                    None => None,
                    Some((group, next)) => Some((groups.push(group), next)),
                }
            },
        }
    }
}

/// Once a group is missing or broken, no later parent gets one.
pub proof fn lemma_child_groups_none<B>(
    present: Seq<bool>,
    child: Seq<PacketView<B>>,
    k: int,
    n: int,
)
    requires
        k <= n,
        child_groups(present, child, k) is None,
    ensures
        child_groups(present, child, n) is None,
    decreases n - k,
{
    if k < n {
        lemma_child_groups_none(present, child, k, n - 1);
    }
}

/// The first `k` parents take `k` groups.
pub proof fn lemma_child_groups_len<B>(present: Seq<bool>, child: Seq<PacketView<B>>, k: int)
    requires
        0 <= k,
    ensures
        child_groups(present, child, k) matches Some((groups, _)) ==> groups.len() == k,
    decreases k,
{
    if k > 0 {
        lemma_child_groups_len(present, child, k - 1);
    }
}

/// Which packets have a payload.
pub open spec fn presence<T>(s: Seq<PacketView<T>>) -> Seq<bool> {
    s.map_values(|p: PacketView<T>| p.data is Some)
}

/// What the vectors hold.
pub open spec fn contents<B>(groups: Seq<Vec<B>>) -> Seq<Seq<B>> {
    groups.map_values(|g: Vec<B>| g@)
}

/// The groups that the parents take out of `data`: for each parent with a
/// payload the payloads of the next packets up to the first one whose
/// innermost flag is set, or nothing where a packet without payload comes
/// first; for each parent without payload nothing, and no packet is used up.
/// Packets that are left over are dropped.
pub fn split_groups<B>(present: &Vec<bool>, data: Vec<TydiPacket<B>>) -> (r: Result<
    Vec<Vec<B>>,
    TydiError,
>)
    ensures
        match child_groups(present@, views(data@), present@.len() as int) {
            Some((groups, _)) => r matches Ok(v) && contents(v@) == groups,
            None => r == Err::<Vec<Vec<B>>, TydiError>(TydiError::MisalignedStream),
        },
{
    let ghost child = views(data@);
    let ghost given = data@;
    let total = data.len();
    // The packets as a stack, the first one on top.
    let mut stack: Vec<TydiPacket<B>> = Vec::new();
    let mut queue = data;
    while queue.len() > 0
        invariant
            given.len() == total,
            queue@.len() + stack@.len() == total,
            forall|j: int| 0 <= j < queue@.len() ==> queue@[j] == given[j],
            forall|j: int| 0 <= j < stack@.len() ==> stack@[j] == given[total - 1 - j],
        decreases queue@.len(),
    {
        let packet = queue.pop().unwrap();
        stack.push(packet);
    }
    let mut groups: Vec<Vec<B>> = Vec::new();
    let mut k: usize = 0;
    while k < present.len()
        invariant
            given == data@,
            child == views(given),
            given.len() == total,
            stack@.len() <= total,
            forall|j: int| 0 <= j < stack@.len() ==> stack@[j] == given[total - 1 - j],
            k <= present@.len(),
            groups@.len() == k,
            child_groups(present@, child, k as int) == Some(
                (contents(groups@), total - stack@.len()),
            ),
        decreases present@.len() - k,
    {
        let ghost done = contents(groups@);
        let ghost start = total - stack@.len();
        let mut group: Vec<B> = Vec::new();
        if present[k] {
            let mut first = true;
            loop
                invariant_except_break
                    first ==> start == total - stack@.len() && group@.len() == 0,
                    !first ==> group_at(child, start) == group_rest(
                        child,
                        total - stack@.len(),
                        group@,
                    ),
                invariant
                    given == data@,
                    child == views(given),
                    given.len() == total,
                    stack@.len() <= total,
                    0 <= start <= total - stack@.len(),
                    k < present@.len(),
                    present@[k as int],
                    child_groups(present@, child, k as int) == Some((done, start)),
                    forall|j: int| 0 <= j < stack@.len() ==> stack@[j] == given[total - 1 - j],
                ensures
                    stack@.len() <= total,
                    forall|j: int| 0 <= j < stack@.len() ==> stack@[j] == given[total - 1 - j],
                    group_at(child, start) == Some((group@, total - stack@.len())),
                decreases stack@.len(),
            {
                let ghost c = total - stack@.len();
                match stack.pop() {
                    None => {
                        proof {
                            assert(group_at(child, start) is None);
                            lemma_child_groups_none(present@, child, k + 1, present@.len() as int);
                        }
                        return Err(TydiError::MisalignedStream);
                    },
                    Some(el) => {
                        assert(el == given[c]);
                        assert(el@ == child[c]);
                        match el.data {
                            None => {
                                if first {
                                    // An empty group.
                                    break ;
                                }
                                proof {
                                    assert(group_at(child, start) is None);
                                    lemma_child_groups_none(
                                        present@,
                                        child,
                                        k + 1,
                                        present@.len() as int,
                                    );
                                }
                                return Err(TydiError::MisalignedStream);
                            },
                            Some(v) => {
                                if el.last.len() == 0 {
                                    proof {
                                        assert(group_at(child, start) is None);
                                        lemma_child_groups_none(
                                            present@,
                                            child,
                                            k + 1,
                                            present@.len() as int,
                                        );
                                    }
                                    return Err(TydiError::MisalignedStream);
                                }
                                let closing = el.last[el.last.len() - 1];
                                let ghost taken = group@;
                                group.push(v);
                                proof {
                                    assert(closing == child[c].last.last());
                                    assert(child[c].data == Some(v));
                                    if first {
                                        assert(taken =~= Seq::<B>::empty());
                                    }
                                    assert(group_at(child, start) == group_rest(child, c, taken));
                                    assert(group@ == taken.push(v));
                                }
                                if closing {
                                    break ;
                                }
                                first = false;
                            },
                        }
                    },
                }
            }
        }
        groups.push(group);
        assert(contents(groups@) =~= done.push(group@));
        k += 1;
    }
    Ok(groups)
}

/// `after` has the packets of `before` with their flags, and no payload where
/// there was none.
pub open spec fn same_frame<T>(before: Seq<TydiPacket<T>>, after: Seq<TydiPacket<T>>) -> bool {
    &&& after.len() == before.len()
    &&& forall|i: int| 0 <= i < before.len() ==> (#[trigger] after[i]).last == before[i].last
    &&& forall|i: int|
        0 <= i < before.len() ==> ((#[trigger] after[i]).data is Some <==> before[i].data is Some)
}

/// Which packets of a stream have a payload.
fn presence_of<T>(packets: &Vec<TydiPacket<T>>) -> (r: Vec<bool>)
    ensures
        r@ == presence(views(packets@)),
{
    let mut present: Vec<bool> = Vec::new();
    let mut i: usize = 0;
    while i < packets.len()
        invariant
            i <= packets@.len(),
            present@ == presence(views(packets@)).take(i as int),
        decreases packets@.len() - i,
    {
        present.push(packets[i].data.is_some());
        assert(present@ =~= presence(views(packets@)).take(i + 1));
        i += 1;
    }
    assert(presence(views(packets@)).take(packets@.len() as int) =~= presence(views(packets@)));
    present
}

/// Appends `groups[i]` to the field that `f` points at in the payload of packet
/// `i`, for every packet with a payload.
fn extend_fields<T, B, F>(packets: &mut Vec<TydiPacket<T>>, f: &F, groups: Vec<Vec<B>>) where
    F: Fn(&mut T) -> &mut Vec<B>,

    requires
        forall|t: &mut T| call_requires(*f, (t,)),
        groups@.len() == old(packets)@.len(),
    ensures
        same_frame(old(packets)@, final(packets)@),
        forall|i: int|
            0 <= i < old(packets)@.len() && (#[trigger] old(packets)@[i]).data is Some ==> exists|
                t: &mut T,
                field: &mut Vec<B>,
            |
                *t == old(packets)@[i].data->0 && *final(t) == final(packets)@[i].data->0
                    && #[trigger] call_ensures(*f, (t,), field) && (*final(field))@ == (*field)@
                    + groups@[i]@,
{
    let ghost all = groups@;
    let mut groups = groups;
    let n = packets.len();
    let mut i: usize = n;
    while i > 0
        invariant
            forall|t: &mut T| call_requires(*f, (t,)),
            i <= n,
            n == old(packets)@.len(),
            all.len() == n,
            groups@ == all.take(i as int),
            same_frame(old(packets)@, packets@),
            forall|j: int| 0 <= j < i ==> (#[trigger] packets@[j]) == old(packets)@[j],
            forall|j: int|
                i <= j < n && (#[trigger] old(packets)@[j]).data is Some ==> exists|
                    t: &mut T,
                    field: &mut Vec<B>,
                |
                    *t == old(packets)@[j].data->0 && *final(t) == packets@[j].data->0
                        && #[trigger] call_ensures(*f, (t,), field) && (*final(field))@ == (
                    *field)@ + all[j]@,
        decreases i,
    {
        i = i - 1;
        let mut group = groups.pop().unwrap();
        assert(group == all[i as int]);
        let packet = &mut packets[i];
        match &mut packet.data {
            Some(payload) => {
                let target = f(payload);
                target.append(&mut group);
            },
            None => {},
        }
    }
}

/// `String::from_utf8`: the text whose UTF-8 form is `bytes`, if there is one.
#[verifier::external_body]
fn text_of(bytes: Vec<u8>) -> (r: Option<String>)
    ensures
        r is Some <==> valid_utf8(bytes@),
        r matches Some(text) ==> text@ == decode_utf8(bytes@),
{
    String::from_utf8(bytes).ok()
}

/// Every group is the UTF-8 form of a text.
pub open spec fn all_text(groups: Seq<Seq<u8>>) -> bool {
    forall|i: int| 0 <= i < groups.len() ==> valid_utf8(#[trigger] groups[i])
}

/// The texts of the groups, if every group is the UTF-8 form of one.
fn texts_of(groups: Vec<Vec<u8>>) -> (r: Option<Vec<String>>)
    ensures
        r is Some <==> all_text(contents(groups@)),
        r matches Some(texts) ==> texts@.len() == groups@.len() && forall|i: int|
            0 <= i < groups@.len() ==> (#[trigger] texts@[i])@ == decode_utf8(groups@[i]@),
{
    let ghost given = groups@;
    let mut texts: Vec<String> = Vec::new();
    for group in it: groups
        invariant
            it.seq() == given,
            texts@.len() == it.index(),
            forall|i: int| 0 <= i < it.index() ==> valid_utf8(#[trigger] given[i]@),
            forall|i: int|
                0 <= i < it.index() ==> (#[trigger] texts@[i])@ == decode_utf8(given[i]@),
    {
        assert(group == given[it.index() as int]);
        match text_of(group) {
            Some(text) => {
                texts.push(text);
            },
            None => {
                assert(!valid_utf8(contents(given)[it.index() as int]));
                return None;
            },
        }
    }
    assert forall|i: int| 0 <= i < contents(given).len() implies valid_utf8(
        #[trigger] contents(given)[i],
    ) by {
        assert(valid_utf8(given[i]@));
    }
    Some(texts)
}

/// Sets the field that `f` points at in the payload of packet `i` to
/// `texts[i]`, for every packet with a payload.
fn assign_fields<T, F>(packets: &mut Vec<TydiPacket<T>>, f: &F, texts: Vec<String>) where
    F: Fn(&mut T) -> &mut String,

    requires
        forall|t: &mut T| call_requires(*f, (t,)),
        texts@.len() == old(packets)@.len(),
    ensures
        same_frame(old(packets)@, final(packets)@),
        forall|i: int|
            0 <= i < old(packets)@.len() && (#[trigger] old(packets)@[i]).data is Some ==> exists|
                t: &mut T,
                field: &mut String,
            |
                *t == old(packets)@[i].data->0 && *final(t) == final(packets)@[i].data->0
                    && #[trigger] call_ensures(*f, (t,), field) && (*final(field))@ == texts@[i]@,
{
    let ghost all = texts@;
    let mut texts = texts;
    let n = packets.len();
    let mut i: usize = n;
    while i > 0
        invariant
            forall|t: &mut T| call_requires(*f, (t,)),
            i <= n,
            n == old(packets)@.len(),
            all.len() == n,
            texts@ == all.take(i as int),
            same_frame(old(packets)@, packets@),
            forall|j: int| 0 <= j < i ==> (#[trigger] packets@[j]) == old(packets)@[j],
            forall|j: int|
                i <= j < n && (#[trigger] old(packets)@[j]).data is Some ==> exists|
                    t: &mut T,
                    field: &mut String,
                |
                    *t == old(packets)@[j].data->0 && *final(t) == packets@[j].data->0
                        && #[trigger] call_ensures(*f, (t,), field) && (*final(field))@ == all[j]@,
        decreases i,
    {
        i = i - 1;
        let text = texts.pop().unwrap();
        assert(text == all[i as int]);
        let packet = &mut packets[i];
        match &mut packet.data {
            Some(payload) => {
                let target = f(payload);
                *target = text;
            },
            None => {},
        }
    }
}

/// Whether a packet stands for an element without payload: it has no payload,
/// and its innermost flag is not set.
pub open spec fn stands_for_absent<B>(p: PacketView<B>) -> bool {
    p.data is None && p.last.len() > 0 && !p.last.last()
}

/// The first `k` packets of `s` without those that stand for an element
/// without payload.
pub open spec fn present_upto<B>(s: Seq<PacketView<B>>, k: int) -> Seq<PacketView<B>>
    decreases k,
{
    if k <= 0 {
        Seq::empty()
    } else if stands_for_absent(s[k - 1]) {
        present_upto(s, k - 1)
    } else {
        present_upto(s, k - 1).push(s[k - 1])
    }
}

/// The packets of `s` without those that stand for an element without
/// payload.
pub open spec fn present_part<B>(s: Seq<PacketView<B>>) -> Seq<PacketView<B>> {
    present_upto(s, s.len() as int)
}

/// The stream without the packets that stand for an element without payload.
/// `drill` makes one such packet of every element without payload, and
/// `inject` expects none: an element without payload takes nothing.
pub fn without_absent<B>(stream: Vec<TydiPacket<B>>) -> (r: Vec<TydiPacket<B>>)
    ensures
        views(r@) == present_part(views(stream@)),
{
    let ghost given = stream@;
    let ghost s = views(given);
    let mut result: Vec<TydiPacket<B>> = Vec::new();
    for packet in it: stream
        invariant
            it.seq() == given,
            s == views(given),
            views(result@) == present_upto(s, it.index() as int),
    {
        assert(packet == given[it.index() as int]);
        assert(packet@ == s[it.index() as int]);
        let flags = packet.last.len();
        let absent = packet.data.is_none() && flags > 0 && !packet.last[flags - 1];
        if !absent {
            let ghost before = views(result@);
            result.push(packet);
            assert(views(result@) =~= before.push(packet@));
        }
    }
    assert(given.len() == s.len());
    result
}

/// Every packet has a flag.
pub open spec fn all_flagged<T>(s: Seq<TydiPacket<T>>) -> bool {
    forall|i: int| 0 <= i < s.len() ==> (#[trigger] s[i]).last@.len() > 0
}

/// A stream whose nesting levels can be opened and closed.
pub trait TydiDrill<T: Clone> {
    /// The packets of the stream.
    spec fn packets(&self) -> Seq<TydiPacket<T>>;

    /// Opens one nesting level: every packet is replaced by one packet for each
    /// item that `f` makes of a clone of its payload, under one more flag,
    /// which is set on the last of them. The flags of the packet are kept.
    fn drill<F, B>(&self, f: F) -> (r: Vec<TydiPacket<B>>) where F: Fn(T) -> Vec<B>
        requires
            drillable(f, self.packets()),
        ensures
            exists|groups: Seq<Seq<B>>| #[trigger]
                groups_of(f, self.packets(), groups) && views(r@) == drilled(
                    views(self.packets()),
                    groups,
                ),
    ;

    /// Closes the innermost nesting level of `data` into a field of the
    /// payloads: every packet with a payload takes the next group out of
    /// `data`, and the group is appended to the field that `f` points at. A
    /// packet without payload takes nothing. If a group is missing or broken,
    /// nothing is changed.
    fn inject<F, B>(&mut self, f: F, data: Vec<TydiPacket<B>>) -> (r: Result<(), TydiError>) where
        F: Fn(&mut T) -> &mut Vec<B>,
        B: Clone,

        requires
            forall|t: &mut T| call_requires(f, (t,)),
        ensures
            match child_groups(
                presence(views(old(self).packets())),
                views(data@),
                old(self).packets().len() as int,
            ) {
                Some((groups, _)) => {
                    &&& r is Ok
                    &&& same_frame(old(self).packets(), final(self).packets())
                    &&& forall|i: int|
                        0 <= i < old(self).packets().len()
                            && (#[trigger] old(self).packets()[i]).data is Some
                            ==> exists|t: &mut T, field: &mut Vec<B>|
                            *t == old(self).packets()[i].data->0
                                && *final(t) == final(self).packets()[i].data->0
                                && #[trigger] call_ensures(f, (t,), field)
                                && (*final(field))@ == (*field)@ + groups[i]
                },
                None => {
                    &&& r == Err::<(), TydiError>(TydiError::MisalignedStream)
                    &&& final(self).packets() == old(self).packets()
                },
            },
    ;

    /// Closes the innermost nesting level of `data` into a text field of the
    /// payloads: as `inject` does, but every group is the UTF-8 form of a
    /// text, which replaces the field that `f` points at. If a group is
    /// missing or broken, or is not the form of a text, nothing is changed.
    fn inject_string<F>(&mut self, f: F, data: Vec<TydiPacket<u8>>) -> (r: Result<
        (),
        TydiError,
    >) where F: Fn(&mut T) -> &mut String
        requires
            forall|t: &mut T| call_requires(f, (t,)),
        ensures
            match child_groups(
                presence(views(old(self).packets())),
                views(data@),
                old(self).packets().len() as int,
            ) {
                Some((groups, _)) => if all_text(groups) {
                    &&& r is Ok
                    &&& same_frame(old(self).packets(), final(self).packets())
                    &&& forall|i: int|
                        0 <= i < old(self).packets().len()
                            && (#[trigger] old(self).packets()[i]).data is Some
                            ==> exists|t: &mut T, field: &mut String|
                            *t == old(self).packets()[i].data->0
                                && *final(t) == final(self).packets()[i].data->0
                                && #[trigger] call_ensures(f, (t,), field)
                                && (*final(field))@ == decode_utf8(groups[i])
                } else {
                    &&& r == Err::<(), TydiError>(TydiError::InvalidText)
                    &&& final(self).packets() == old(self).packets()
                },
                None => {
                    &&& r == Err::<(), TydiError>(TydiError::MisalignedStream)
                    &&& final(self).packets() == old(self).packets()
                },
            },
    ;

    /// Takes the innermost flag off every packet and collects the packets
    /// between two set flags into one group.
    fn vectorize(self) -> (r: Vec<Vec<TydiPacket<T>>>) where Self: Sized
        requires
            all_flagged(self.packets()),
        ensures
            group_views(r@) == vectorized(views(self.packets())),
    ;

    /// Takes the innermost flag off every packet and collects the payloads
    /// between two set flags into the payload of one packet.
    fn vectorize_inner(self) -> (r: Vec<TydiPacket<Vec<T>>>) where Self: Sized
        requires
            all_flagged(self.packets()),
        ensures
            inner_views(r@) == vectorized_inner(views(self.packets())),
    ;
}

impl<T: Clone> TydiDrill<T> for Vec<TydiPacket<T>> {
    open spec fn packets(&self) -> Seq<TydiPacket<T>> {
        self@
    }

    fn drill<F, B>(&self, f: F) -> (r: Vec<TydiPacket<B>>) where F: Fn(T) -> Vec<B> {
        let ghost s = views(self@);
        let ghost mut groups: Seq<Seq<B>> = Seq::empty();
        let mut result: Vec<TydiPacket<B>> = Vec::new();
        let mut i: usize = 0;
        while i < self.len()
            invariant
                i <= self@.len(),
                s == views(self@),
                drillable(f, self@),
                groups.len() == i,
                forall|j: int|
                    0 <= j < i && (#[trigger] self@[j]).data is Some ==> yields(
                        f,
                        self@[j].data->0,
                        groups[j],
                    ),
                views(result@) == drilled_upto(s, groups, i as int),
            decreases self@.len() - i,
        {
            let el = &self[i];
            let ghost before = views(result@);
            let ghost mut group: Seq<B> = Seq::empty();
            match &el.data {
                Some(old_data) => {
                    let copy = old_data.clone();
                    assert(cloned(self@[i as int].data->0, copy));
                    let items = f(copy);
                    proof {
                        group = items@;
                        assert(yields(f, self@[i as int].data->0, group));
                    }
                    let count = items.len();
                    if count == 0 {
                        // The group is empty: one packet without payload closes it.
                        let mut last = el.last.clone();
                        last.push(true);
                        let packet = TydiPacket { data: None, last };
                        result.push(packet);
                        assert(views(result@) =~= before + drilled_one(s[i as int], group));
                    } else {
                        let mut j: usize = 0;
                        for item in it: items
                            invariant
                                it.seq() == group,
                                count == group.len(),
                                count > 0,
                                j == it.index(),
                                i < self@.len(),
                                el == self@[i as int],
                                s == views(self@),
                                el.data is Some,
                                views(result@) == before + drilled_one(s[i as int], group).take(
                                    j as int,
                                ),
                        {
                            let ghost sofar = views(result@);
                            let mut last = el.last.clone();
                            last.push(j == count - 1);
                            let packet = TydiPacket { data: Some(item), last };
                            assert(packet@ == drilled_one(s[i as int], group)[j as int]);
                            result.push(packet);
                            assert(views(result@) =~= sofar.push(packet@));
                            assert(views(result@) =~= before + drilled_one(s[i as int], group).take(
                                j + 1,
                            ));
                            j += 1;
                        }
                        assert(drilled_one(s[i as int], group).take(count as int) =~= drilled_one(
                            s[i as int],
                            group,
                        ));
                    }
                },
                None => {
                    let mut last = el.last.clone();
                    last.push(false);
                    let packet = TydiPacket { data: None, last };
                    result.push(packet);
                    assert(views(result@) =~= before + drilled_one(s[i as int], group));
                },
            }
            proof {
                let longer = groups.push(group);
                lemma_drilled_agree(s, groups, longer, i as int);
                groups = longer;
            }
            i += 1;
        }
        proof {
            assert(groups_of(f, self@, groups));
            assert(s.len() == self@.len());
        }
        result
    }

    fn inject<F, B>(&mut self, f: F, data: Vec<TydiPacket<B>>) -> (r: Result<(), TydiError>) where
        F: Fn(&mut T) -> &mut Vec<B>,
        B: Clone,
     {
        let present = presence_of(self);
        proof {
            lemma_child_groups_len(present@, views(data@), self@.len() as int);
        }
        match split_groups(&present, data) {
            Ok(groups) => {
                assert(forall|i: int|
                    0 <= i < groups@.len() ==> contents(groups@)[i] == (#[trigger] groups@[i])@);
                extend_fields(self, &f, groups);
                Ok(())
            },
            Err(e) => Err(e),
        }
    }

    fn inject_string<F>(&mut self, f: F, data: Vec<TydiPacket<u8>>) -> (r: Result<
        (),
        TydiError,
    >) where F: Fn(&mut T) -> &mut String {
        let present = presence_of(self);
        proof {
            lemma_child_groups_len(present@, views(data@), self@.len() as int);
        }
        match split_groups(&present, data) {
            Ok(groups) => {
                assert(forall|i: int|
                    0 <= i < groups@.len() ==> contents(groups@)[i] == (#[trigger] groups@[i])@);
                match texts_of(groups) {
                    Some(texts) => {
                        assign_fields(self, &f, texts);
                        Ok(())
                    },
                    None => Err(TydiError::InvalidText),
                }
            },
            Err(e) => Err(e),
        }
    }

    fn vectorize(self) -> (r: Vec<Vec<TydiPacket<T>>>) {
        let ghost given = self@;
        let ghost s = views(given);
        let ghost start = nothing_grouped::<T>();
        let mut result: Vec<Vec<TydiPacket<T>>> = Vec::new();
        let mut inner_result: Vec<TydiPacket<T>> = Vec::new();
        assert(group_views(result@) =~= start.done);
        assert(views(inner_result@) =~= start.pending);
        for x in it: self
            invariant
                it.seq() == given,
                s == views(given),
                all_flagged(given),
                start == nothing_grouped::<T>(),
                group_views(result@) == grouped_from(start, s, it.index() as int).done,
                views(inner_result@) == grouped_from(start, s, it.index() as int).pending,
        {
            let ghost st = grouped_from(start, s, it.index() as int);
            let ghost e = x@;
            assert(x == given[it.index() as int]);
            assert(e == s[it.index() as int]);
            let mut last_copy = x.last;
            let last_el_in_dim = last_copy.pop().unwrap();
            assert(last_copy@ =~= e.last.drop_last());
            // A flagged packet without payload only closes an empty group.
            if !(last_el_in_dim && x.data.is_none() && inner_result.len() == 0) {
                let ghost before = views(inner_result@);
                let packet = TydiPacket { data: x.data, last: last_copy };
                inner_result.push(packet);
                assert(views(inner_result@) =~= before.push(packet@));
            }
            if last_el_in_dim {
                let ghost before = group_views(result@);
                let ghost closed = views(inner_result@);
                result.push(inner_result);
                assert(group_views(result@) =~= before.push(closed));
                inner_result = Vec::new();
                assert(views(inner_result@) =~= Seq::<PacketView<T>>::empty());
            }
            assert(grouped_from(start, s, it.index() + 1) == group_step(st, e));
        }
        assert(given.len() == s.len());
        result
    }

    fn vectorize_inner(self) -> (r: Vec<TydiPacket<Vec<T>>>) {
        let ghost given = self@;
        let ghost s = views(given);
        let ghost start = nothing_gathered::<T>();
        let mut result: Vec<TydiPacket<Vec<T>>> = Vec::new();
        let mut inner_result: Vec<T> = Vec::new();
        assert(inner_views(result@) =~= start.done);
        for x in it: self
            invariant
                it.seq() == given,
                s == views(given),
                start == nothing_gathered::<T>(),
                all_flagged(given),
                inner_views(result@) == gathered_from(start, s, it.index() as int).done,
                inner_result@ == gathered_from(start, s, it.index() as int).pending,
        {
            let ghost st = gathered_from(start, s, it.index() as int);
            let ghost e = x@;
            assert(x == given[it.index() as int]);
            assert(e == s[it.index() as int]);
            let ghost before = inner_views(result@);
            let mut last_copy = x.last;
            let last_el_in_dim = last_copy.pop().unwrap();
            assert(last_copy@ =~= e.last.drop_last());
            let absent = x.data.is_none();
            match x.data {
                Some(v) => {
                    inner_result.push(v);
                },
                None => {},
            }
            if last_el_in_dim {
                let packet = TydiPacket { data: Some(inner_result), last: last_copy };
                result.push(packet);
                assert(inner_views(result@) =~= before.push(inner_view(packet)));
                inner_result = Vec::new();
            } else if absent {
                let packet = TydiPacket { data: None, last: last_copy };
                result.push(packet);
                assert(inner_views(result@) =~= before.push(inner_view(packet)));
                inner_result = Vec::new();
            }
            assert(gathered_from(start, s, it.index() + 1) == gather_step(st, e));
        }
        assert(given.len() == s.len());
        result
    }
}

/// `out` is the buffer of `p` with a payload of `size` bits: the strobe, the
/// flags, and the binary form of a clone of the payload, or `size` unset bits
/// where there is none.
pub open spec fn encodes<T: Into<TydiBinary> + Clone>(
    p: TydiPacket<T>,
    size: usize,
    out: TydiBinary,
) -> bool {
    &&& out.wf()
    &&& out.len == 1 + p.last@.len() + size
    &&& p.data is None ==> out.canonical() && out@ == packet_bits(
        false,
        p.last@,
        zeros(size as nat),
    )
    &&& p.data is Some ==> exists|c: T, b: TydiBinary|
        cloned(p.data->0, c) && #[trigger] call_ensures(<T as Into<TydiBinary>>::into, (c,), b)
            && out@ == packet_bits(true, p.last@, b@) && out.data@ == packet_bytes(
            true,
            p.last@,
            b,
        )
}

/// The binary form of a clone of the payload of `p`, if it has one, has `size`
/// bits, and the buffer of `p` is no longer than a length can say.
pub open spec fn encodable_packet<T: Into<TydiBinary> + Clone>(
    p: TydiPacket<T>,
    size: usize,
) -> bool {
    &&& 1 + p.last@.len() + size <= usize::MAX
    &&& p.data is Some ==> forall|c: T, b: TydiBinary|
        cloned(p.data->0, c) && #[trigger] call_ensures(<T as Into<TydiBinary>>::into, (c,), b)
            ==> b.wf() && b.len == size
}

/// A stream whose packets can be made buffers.
pub trait TydiPacktestToBinary {
    /// Whether every packet can be made a buffer with a payload of `size` bits.
    spec fn encodable(&self, size: usize) -> bool;

    /// Whether `out` holds, in order, the buffers of the packets with payloads
    /// of `size` bits.
    spec fn encoded_as(&self, size: usize, out: Seq<TydiBinary>) -> bool;

    /// The buffer of every packet, in order.
    fn finish(&self, size: usize) -> (r: Vec<TydiBinary>)
        requires
            self.encodable(size),
        ensures
            self.encoded_as(size, r@),
    ;
}

impl<T: Into<TydiBinary> + Clone> TydiPacktestToBinary for Vec<TydiPacket<T>> {
    open spec fn encodable(&self, size: usize) -> bool {
        forall|i: int| 0 <= i < self@.len() ==> encodable_packet(#[trigger] self@[i], size)
    }

    open spec fn encoded_as(&self, size: usize, out: Seq<TydiBinary>) -> bool {
        &&& out.len() == self@.len()
        &&& forall|i: int| 0 <= i < self@.len() ==> encodes(self@[i], size, #[trigger] out[i])
    }

    fn finish(&self, size: usize) -> (r: Vec<TydiBinary>) {
        let mut result: Vec<TydiBinary> = Vec::new();
        let mut i: usize = 0;
        while i < self.len()
            invariant
                self.encodable(size),
                i <= self@.len(),
                result@.len() == i,
                forall|j: int| 0 <= j < i ==> encodes(self@[j], size, #[trigger] result@[j]),
            decreases self@.len() - i,
        {
            assert(encodable_packet(self@[i as int], size));
            let packet = self[i].clone();
            let binary = packet.to_binary(size);
            result.push(binary);
            i += 1;
        }
        result
    }
}

} // verus!

//! Nested, variable-length data as flat streams of fixed-width elements.
//!
//! Every element of a stream carries an optional payload and one "last" flag per
//! open nesting level, so that lists, and lists of lists, travel without length
//! prefixes. The crate holds a bit-precise buffer, the packet and stream types, the
//! operations that open and close a nesting level, and the codec between packets
//! and buffers.

use crate::binary::{FromTydiBinary, TydiBinary};
use crate::error::TydiError;
use vstd::prelude::*;
use vstd::std_specs::convert::FromSpecImpl;
use vstd::string::StringSliceAdditionalSpecFns;

pub mod algebra;
pub mod binary;
pub mod bits;
pub mod drilling;
pub mod error;
pub mod fields;
pub mod native;
pub mod primitive;

verus! {

/// A sequence of packets under a name of its own.
#[derive(Debug)]
pub struct TydiStream<T>(pub Vec<TydiPacket<T>>);

/// One element of a stream: a payload, or none for an empty group, and one
/// flag for each open nesting level, the outermost first. A flag is set on the
/// last element of its level's group.
#[derive(Debug, PartialEq, Eq)]
pub struct TydiPacket<T> {
    pub data: Option<T>,
    pub last: Vec<bool>,
}

/// What a packet holds.
pub struct PacketView<T> {
    pub data: Option<T>,
    pub last: Seq<bool>,
}

impl<T> View for TydiPacket<T> {
    type V = PacketView<T>;

    open spec fn view(&self) -> PacketView<T> {
        PacketView { data: self.data, last: self.last@ }
    }
}

/// What the packets of a sequence hold.
pub open spec fn views<T>(s: Seq<TydiPacket<T>>) -> Seq<PacketView<T>> {
    s.map_values(|p: TydiPacket<T>| p@)
}

impl<T: Clone> Clone for TydiPacket<T> {
    fn clone(&self) -> (r: Self)
        ensures
            r.last@ == self.last@,
            self.data is None ==> r.data is None,
            self.data matches Some(p) ==> r.data is Some && cloned(p, r.data->0),
    {
        let data = match &self.data {
            Some(p) => Some(p.clone()),
            None => None,
        };
        let last = self.last.clone();
        assert(last@ =~= self.last@);
        TydiPacket { data, last }
    }
}

/// The bits of a packet on the wire: the strobe, which says whether there is a
/// payload; one bit for each flag, in order; the payload.
pub open spec fn packet_bits(present: bool, last: Seq<bool>, payload: Seq<bool>) -> Seq<bool> {
    seq![present] + last + payload
}

/// The bytes of a packet on the wire. Where the strobe and the flags fill whole
/// bytes, the bytes of the payload follow as they are; else the bits are
/// packed.
pub open spec fn packet_bytes(present: bool, last: Seq<bool>, payload: TydiBinary) -> Seq<u8> {
    if (1 + last.len()) % 8 == 0 {
        crate::bits::pack(seq![present] + last) + payload.data@
    } else {
        crate::bits::pack(packet_bits(present, last, payload@))
    }
}

/// `n` unset bits.
pub open spec fn zeros(n: nat) -> Seq<bool> {
    Seq::new(n, |i: int| false)
}

/// The packet that `bits` stand for where `dim` nesting levels are open.
pub open spec fn decoded_packet<T: FromTydiBinary>(bits: Seq<bool>, dim: nat) -> PacketView<T> {
    PacketView {
        data: if bits[0] {
            Some(T::decoded(bits.skip(1 + dim as int)))
        } else {
            None
        },
        last: bits.subrange(1, 1 + dim as int),
    }
}

/// Whether `val` holds a packet where `dim` nesting levels are open: the
/// strobe, the flags and, if the strobe is set, a payload of the width of `T`.
pub open spec fn holds_packet<T: FromTydiBinary>(val: TydiBinary, dim: usize) -> bool {
    &&& val.wf()
    &&& 1 + dim <= val.len
    &&& val@[0] ==> 1 + dim + T::bit_width() <= val.len
}

/// A buffer of `size` unset bits.
fn zero_bits(size: usize) -> (r: TydiBinary)
    ensures
        r.len == size,
        r@ == zeros(size as nat),
        r.wf(),
        r.canonical(),
{
    let n_bytes = crate::binary::bytes_for(size);
    let mut data: Vec<u8> = Vec::new();
    let mut i: usize = 0;
    while i < n_bytes
        invariant
            i <= n_bytes,
            data@.len() == i,
            forall|x: int| 0 <= x < i ==> data@[x] == 0u8,
        decreases n_bytes - i,
    {
        data.push(0u8);
        i += 1;
    }
    let r = TydiBinary { data, len: size };
    proof {
        assert forall|k: int| 0 <= k < 8 * r.data@.len() implies !crate::bits::bit(
            #[trigger] r.data@[k / 8],
            k % 8,
        ) by {
            crate::bits::lemma_bit_zero(k % 8);
        }
        assert(r@ =~= zeros(size as nat));
        crate::bits::lemma_pack_of_bits(r.data@, size as nat);
    }
    r
}

/// The strobe, the flags and the payload in one buffer.
fn assemble(present: bool, last: Vec<bool>, payload: &TydiBinary) -> (r: TydiBinary)
    requires
        payload.wf(),
        1 + last@.len() + payload.len <= usize::MAX,
    ensures
        r.wf(),
        r.len == 1 + last@.len() + payload.len,
        r@ == packet_bits(present, last@, payload@),
        r.data@ == packet_bytes(present, last@, *payload),
        payload.canonical() ==> r.canonical(),
{
    let strobe = TydiBinary::from(present);
    let last_bin = TydiBinary::from(last);
    let head = strobe.concatenate(&last_bin);
    let r = head.concatenate(payload);
    proof {
        if head.len % 8 == 0 {
            assert(head.data@.take(head.len as int / 8) =~= head.data@);
            if payload.canonical() {
                crate::bits::lemma_pack_concat_aligned(head@, payload@);
            }
        }
    }
    r
}

/// The buffer of a packet whose payload, if it has one, is already in binary
/// form: the strobe, the flags, then the payload, or `size` unset bits where
/// there is none. A payload whose length exceeds its bytes is refused, and so
/// is one of another width than `size`.
pub fn encode_packet(payload: Option<TydiBinary>, last: Vec<bool>, size: usize) -> (r: Result<
    TydiBinary,
    TydiError,
>)
    requires
        1 + last@.len() + size <= usize::MAX,
    ensures
        payload is None ==> (r matches Ok(b) && b.wf() && b.canonical() && b@ == packet_bits(
            false,
            last@,
            zeros(size as nat),
        )),
        payload matches Some(p) ==> (if !p.wf() {
            r == Err::<TydiBinary, TydiError>(TydiError::InvalidLength)
        } else if p.len != size {
            r == Err::<TydiBinary, TydiError>(TydiError::PayloadWidthMismatch)
        } else {
            r matches Ok(b) && b.wf() && b@ == packet_bits(true, last@, p@) && b.data@
                == packet_bytes(true, last@, p)
        }),
{
    match payload {
        Some(binary) => {
            if !binary.is_wf() {
                return Err(TydiError::InvalidLength);
            }
            if binary.len != size {
                return Err(TydiError::PayloadWidthMismatch);
            }
            Ok(assemble(true, last, &binary))
        },
        None => {
            let binary = zero_bits(size);
            Ok(assemble(false, last, &binary))
        },
    }
}

/// The strobe and the `dim` flags at the front of a buffer, and a buffer of
/// the bits that follow them.
fn split_header(val: TydiBinary, dim: usize) -> (r: (bool, Vec<bool>, TydiBinary))
    requires
        val.wf(),
        1 + dim <= val.len,
    ensures
        r.0 == val@[0],
        r.1@ == val@.subrange(1, 1 + dim),
        r.2@ == val@.skip(1 + dim),
        r.2.len == val.len - 1 - dim,
        r.2.wf(),
        r.2.canonical(),
{
    let ghost bits = val@;
    let (strobe, res) = bool::from_tydi_binary(val);
    assert(res@ == bits.skip(1));
    let (last, res) = res.split(dim);
    assert(last@ == bits.skip(1).take(dim as int));
    assert(res@ == bits.skip(1).skip(dim as int));
    let last: Vec<bool> = Vec::<bool>::from(last);
    proof {
        assert(bits.skip(1).take(dim as int) =~= bits.subrange(1, 1 + dim));
        assert(bits.skip(1).skip(dim as int) =~= bits.skip(1 + dim));
    }
    (strobe, last, res)
}

impl<T> TydiPacket<T> {
    /// The buffer of the packet: the strobe, the flags, then the binary form of
    /// the payload, or `size` unset bits where there is none.
    pub fn to_binary(self, size: usize) -> (r: TydiBinary) where T: Into<TydiBinary>
        requires
            self.data matches Some(p) ==> forall|b: TydiBinary|
                call_ensures(<T as Into<TydiBinary>>::into, (p,), b) ==> b.wf() && b.len == size,
            1 + self.last@.len() + size <= usize::MAX,
        ensures
            r.wf(),
            r.len == 1 + self.last@.len() + size,
            self.data is None ==> r.canonical() && r@ == packet_bits(
                false,
                self.last@,
                zeros(size as nat),
            ),
            self.data matches Some(p) ==> exists|b: TydiBinary|
                call_ensures(<T as Into<TydiBinary>>::into, (p,), b) && r@ == packet_bits(
                    true,
                    self.last@,
                    b@,
                ) && r.data@ == packet_bytes(true, self.last@, b),
    {
        match self.data {
            Some(data) => {
                let binary: TydiBinary = data.into();
                assemble(true, self.last, &binary)
            },
            None => {
                let binary = zero_bits(size);
                assemble(false, self.last, &binary)
            },
        }
    }

    /// The packet that the buffer stands for: one strobe bit, `dim` flags, and
    /// a payload where the strobe is set.
    pub fn from_binary(val: TydiBinary, dim: usize) -> (r: Self) where T: FromTydiBinary
        requires
            holds_packet::<T>(val, dim),
        ensures
            r.last@ == val@.subrange(1, 1 + dim),
            r.data is Some == val@[0],
            T::obeys_decoded() ==> r@ == decoded_packet::<T>(val@, dim as nat),
    {
        let (strobe, last, res) = split_header(val, dim);
        let data: Option<T> = if strobe {
            let (item, _) = T::from_tydi_binary(res);
            Some(item)
        } else {
            None
        };
        TydiPacket { data, last }
    }

    /// The packet with `f` applied to its payload.
    pub fn map_data<B>(self, f: impl FnOnce(T) -> B) -> (r: TydiPacket<B>)
        requires
            self.data matches Some(p) ==> call_requires(f, (p,)),
        ensures
            r.last == self.last,
            self.data is None ==> r.data is None,
            self.data matches Some(p) ==> r.data is Some && call_ensures(f, (p,), r.data->0),
    {
        let data = match self.data {
            Some(x) => Some(f(x)),
            None => None,
        };
        TydiPacket { data, last: self.last }
    }
}

/// A packet read off the wire form of a packet is that packet: the flags as
/// they were, and the payload that its bits stand for, or none.
pub proof fn lemma_packet_round_trip<T: FromTydiBinary>(
    present: bool,
    last: Seq<bool>,
    payload: Seq<bool>,
)
    ensures
        decoded_packet::<T>(packet_bits(present, last, payload), last.len()) == (PacketView {
            data: if present {
                Some(T::decoded(payload))
            } else {
                None
            },
            last,
        }),
{
    let bits = packet_bits(present, last, payload);
    assert(bits.subrange(1, 1 + last.len() as int) =~= last);
    assert(bits.skip(1 + last.len() as int) =~= payload);
}

/// The packets of a flat sequence: one for each item, the last one flagged; of
/// an empty sequence, one packet without payload, flagged.
pub open spec fn flat_packets<T>(items: Seq<T>) -> Seq<PacketView<T>> {
    if items.len() == 0 {
        seq![PacketView { data: None, last: seq![true] }]
    } else {
        Seq::new(
            items.len(),
            |i: int| PacketView { data: Some(items[i]), last: seq![i == items.len() - 1] },
        )
    }
}

/// The packets of `inner` under one more flag, which says whether `inner` is
/// the last sequence.
pub open spec fn under_flag<T>(inner: Seq<PacketView<T>>, is_last: bool) -> Seq<PacketView<T>> {
    Seq::new(
        inner.len(),
        |j: int| PacketView { data: inner[j].data, last: inner[j].last.push(is_last) },
    )
}

/// The packets of the first `k` of `n` sequences, each under the flag of its
/// place.
pub open spec fn nested_prefix<T>(seqs: Seq<Seq<PacketView<T>>>, k: int) -> Seq<PacketView<T>>
    decreases k,
{
    if k <= 0 {
        Seq::empty()
    } else {
        nested_prefix(seqs, k - 1) + under_flag(seqs[k - 1], k == seqs.len())
    }
}

/// The packets of a sequence of sequences: those of each sequence in turn,
/// under one more flag; of an empty sequence, one packet without payload with
/// two set flags.
pub open spec fn nested_packets<T>(seqs: Seq<Seq<PacketView<T>>>) -> Seq<PacketView<T>> {
    if seqs.len() == 0 {
        seq![PacketView { data: None, last: seq![true, true] }]
    } else {
        nested_prefix(seqs, seqs.len() as int)
    }
}

/// A sequence of packets with the number of nesting levels that it was made
/// for.
#[derive(Debug, Clone, PartialEq, Eq)]
pub struct TydiVec<T> {
    pub data: Vec<TydiPacket<T>>,
    pub d: i8,
}

impl<T> TydiVec<T> {
    /// An empty sequence of `d` nesting levels.
    pub fn new(d: i8) -> (r: Self)
        ensures
            r.data@ == Seq::<TydiPacket<T>>::empty(),
            r.d == d,
    {
        TydiVec { data: Vec::new(), d }
    }

    /// Appends a packet.
    pub fn push(&mut self, data: Option<T>, last: Vec<bool>)
        ensures
            final(self).data@ == old(self).data@.push((TydiPacket { data, last })),
            final(self).d == old(self).d,
    {
        self.data.push(TydiPacket { data, last });
    }
}

/// The packets of a flat sequence.
fn packets_of<T>(items: Vec<T>) -> (r: Vec<TydiPacket<T>>)
    ensures
        views(r@) == flat_packets(items@),
{
    let mut result: Vec<TydiPacket<T>> = Vec::new();
    let n = items.len();
    if n == 0 {
        let mut last: Vec<bool> = Vec::new();
        last.push(true);
        result.push(TydiPacket { data: None, last });
        assert(views(result@) =~= flat_packets(items@));
        return result;
    }
    let ghost all = items@;
    for el in it: items
        invariant
            all.len() == n,
            n > 0,
            it.seq() == all,
            result@.len() == it.index(),
            forall|i: int|
                0 <= i < it.index() ==> (#[trigger] result@[i])@ == (PacketView {
                    data: Some(all[i]),
                    last: seq![i == n - 1],
                }),
    {
        let is_last = result.len() == n - 1;
        let mut last: Vec<bool> = Vec::new();
        last.push(is_last);
        assert(last@ =~= seq![is_last]);
        result.push(TydiPacket { data: Some(el), last });
    }
    assert(views(result@) =~= flat_packets(all));
    result
}

impl<'a> From<&'a str> for TydiVec<u8> {
    /// The bytes of a text as a sequence of one nesting level.
    fn from(value: &'a str) -> (r: Self)
        ensures
            views(r.data@) == flat_packets(value.spec_bytes()),
            r.d == 0,
    {
        let bytes = value.as_bytes_vec();
        TydiVec { data: packets_of(bytes), d: 0 }
    }
}

impl<'a> FromSpecImpl<&'a str> for TydiVec<u8> {
    open spec fn obeys_from_spec() -> bool {
        false
    }

    open spec fn from_spec(v: &'a str) -> Self {
        arbitrary()
    }
}

impl<T: Clone> From<Vec<T>> for TydiVec<T> {
    /// The items as a sequence of one nesting level.
    fn from(value: Vec<T>) -> (r: Self)
        ensures
            views(r.data@) == flat_packets(value@),
            r.d == 0,
    {
        TydiVec { data: packets_of(value), d: 0 }
    }
}

impl<T: Clone> FromSpecImpl<Vec<T>> for TydiVec<T> {
    open spec fn obeys_from_spec() -> bool {
        false
    }

    open spec fn from_spec(v: Vec<T>) -> Self {
        arbitrary()
    }
}

/// What the packets of each sequence hold.
pub open spec fn nested_views<T>(seqs: Seq<TydiVec<T>>) -> Seq<Seq<PacketView<T>>> {
    seqs.map_values(|s: TydiVec<T>| views(s.data@))
}

impl<T: Clone> From<Vec<TydiVec<T>>> for TydiVec<T> {
    /// The packets of the sequences in turn, each under one more flag, which
    /// is set on the packets of the last sequence.
    fn from(value: Vec<TydiVec<T>>) -> (r: Self)
        ensures
            views(r.data@) == nested_packets(nested_views(value@)),
            r.d == 0,
    {
        let mut result: Vec<TydiPacket<T>> = Vec::new();
        let n = value.len();
        if n == 0 {
            let mut last: Vec<bool> = Vec::new();
            last.push(true);
            last.push(true);
            assert(last@ =~= seq![true, true]);
            result.push(TydiPacket { data: None, last });
            assert(views(result@) =~= nested_packets(nested_views(value@)));
            return TydiVec { data: result, d: 0 };
        }
        let ghost all = nested_views(value@);
        let ghost given = value@;
        let mut i: usize = 0;
        for seq in it: value
            invariant
                given.len() == n,
                all == nested_views(given),
                it.seq() == given,
                i == it.index(),
                views(result@) == nested_prefix(all, i as int),
        {
            let is_last_seq = i == n - 1;
            let ghost inner = views(seq.data@);
            let ghost before = views(result@);
            assert(seq == given[i as int]);
            assert(inner == all[i as int]);
            let ghost count = seq.data@.len();
            for el in it2: seq.data
                invariant
                    it2.seq().len() == count,
                    views(it2.seq()) == inner,
                    views(result@) == before + under_flag(inner, is_last_seq).take(it2.index()),
            {
                let ghost sofar = views(result@);
                assert(el@ == inner[it2.index() as int]);
                let mut last = el.last;
                last.push(is_last_seq);
                let packet = TydiPacket { data: el.data, last };
                assert(packet@ == under_flag(inner, is_last_seq)[it2.index() as int]);
                result.push(packet);
                assert(views(result@) =~= sofar.push(packet@));
                assert(views(result@) =~= before + under_flag(inner, is_last_seq).take(
                    it2.index() + 1,
                ));
            }
            assert(under_flag(inner, is_last_seq).take(count as int) =~= under_flag(
                inner,
                is_last_seq,
            ));
            i += 1;
        }
        TydiVec { data: result, d: 0 }
    }
}

impl<T: Clone> FromSpecImpl<Vec<TydiVec<T>>> for TydiVec<T> {
    open spec fn obeys_from_spec() -> bool {
        false
    }

    open spec fn from_spec(v: Vec<TydiVec<T>>) -> Self {
        arbitrary()
    }
}

} // verus!

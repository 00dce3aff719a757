//! The specification of block framing and segment payloads: what the writer
//! emits, what a reader finds at a stream position, and how an
//! offset-addressed segment transforms a destination array.

use crate::read_write::Scalar;
use crate::state::spec_u64_at;
use crate::stream::Error;
use crate::state::spec_u16_at;
use vstd::arithmetic::div_mod::lemma_div_multiples_vanish;
use vstd::arithmetic::div_mod::lemma_mod_multiples_vanish;
use vstd::bytes::lemma_auto_spec_u16_to_from_le_bytes;
use vstd::bytes::lemma_auto_spec_u64_to_from_le_bytes;
use vstd::bytes::spec_u16_to_le_bytes;
use vstd::bytes::spec_u64_to_le_bytes;
use vstd::prelude::*;

verus! {

/// The serialized bytes of a run of scalars, in order.
pub open spec fn spec_scalar_payload<T: Scalar>(s: Seq<T>) -> Seq<u8>
    decreases s.len(),
{
    if s.len() == 0 {
        Seq::empty()
    } else {
        s[0].spec_to_bytes() + spec_scalar_payload(s.subrange(1, s.len() as int))
    }
}

/// The `n` scalars stored consecutively at the start of `b`.
pub open spec fn spec_parse_scalars<T: Scalar>(b: Seq<u8>, n: int) -> Seq<T> {
    Seq::new(
        n as nat,
        |k: int|
            T::spec_from_bytes(
                b.subrange(
                    k * (T::spec_ty().spec_size() as int),
                    (k + 1) * (T::spec_ty().spec_size() as int),
                ),
            ),
    )
}

/// The bytes of a whole block holding one segment at offset zero: type
/// format, property id, byte count, offset instance id, payload, and the
/// zero byte count that ends the block.
pub open spec fn spec_property_block(code: u16, property_id: u16, payload: Seq<u8>) -> Seq<u8>
    recommends
        payload.len() <= u64::MAX,
{
    spec_u16_to_le_bytes(code) + spec_u16_to_le_bytes(property_id) + spec_u64_to_le_bytes(
        payload.len() as u64,
    ) + spec_u64_to_le_bytes(0) + payload + spec_u64_to_le_bytes(0)
}

/// The byte count field of the segment at `pos`.
pub open spec fn spec_seg_bytes(data: Seq<u8>, pos: int) -> u64 {
    spec_u64_at(data, pos)
}

/// The offset instance id field of the segment at `pos`.
pub open spec fn spec_seg_offset(data: Seq<u8>, pos: int) -> u64 {
    spec_u64_at(data, pos + 8)
}

/// The payload bytes of the segment at `pos`.
pub open spec fn spec_seg_payload(data: Seq<u8>, pos: int) -> Seq<u8> {
    data.subrange(pos + 16, pos + 16 + spec_seg_bytes(data, pos))
}

/// The position just past the segment at `pos` and the zero byte count
/// that must follow it.
pub open spec fn spec_seg_end(data: Seq<u8>, pos: int) -> int {
    pos + 24 + spec_seg_bytes(data, pos)
}

/// Whether the segment at `pos` is well-formed for an array read of
/// elements of `esz` bytes: both header fields present, the byte count an
/// exact multiple of the element size, the target index range addressable,
/// the payload and end marker present, and the end marker zero.
pub open spec fn spec_seg_wf(data: Seq<u8>, pos: int, esz: int) -> bool {
    &&& pos + 16 <= data.len()
    &&& spec_seg_bytes(data, pos) as int % esz == 0
    &&& spec_seg_offset(data, pos) + spec_seg_bytes(data, pos) as int / esz <= usize::MAX
    &&& spec_seg_end(data, pos) <= data.len()
    &&& spec_u64_at(data, pos + 16 + spec_seg_bytes(data, pos) as int) == 0
}

/// The error an array read reports for the segment at `pos`, when the
/// shape check came out as `shape_ok` and the segment is not well-formed:
/// the checks run in wire order and the first violated rule names the
/// error.
pub open spec fn spec_seg_error(data: Seq<u8>, pos: int, esz: int, shape_ok: bool) -> Error {
    if !shape_ok {
        Error::ShapeMismatch
    } else if pos + 8 > data.len() {
        Error::IoFailure
    } else if spec_seg_bytes(data, pos) as int % esz != 0 {
        Error::MalformedFraming
    } else if pos + 16 > data.len() {
        Error::IoFailure
    } else if spec_seg_offset(data, pos) + spec_seg_bytes(data, pos) as int / esz > usize::MAX {
        Error::IndexOverflow
    } else if spec_seg_end(data, pos) > data.len() {
        Error::IoFailure
    } else {
        Error::MalformedFraming
    }
}

/// Whether the segment at `pos` is well-formed for a single-value read of
/// one element of `esz` bytes: the byte count must be exactly `esz` and
/// the offset instance id exactly zero.
pub open spec fn spec_prop_wf(data: Seq<u8>, pos: int, esz: int) -> bool {
    &&& pos + 16 <= data.len()
    &&& spec_seg_bytes(data, pos) == esz
    &&& spec_seg_offset(data, pos) == 0
    &&& spec_seg_end(data, pos) <= data.len()
    &&& spec_u64_at(data, pos + 16 + spec_seg_bytes(data, pos) as int) == 0
}

/// The error a single-value read reports for the segment at `pos`, when
/// the shape check came out as `shape_ok` and the segment is not
/// well-formed for a single value.
pub open spec fn spec_prop_error(data: Seq<u8>, pos: int, esz: int, shape_ok: bool) -> Error {
    if !shape_ok {
        Error::ShapeMismatch
    } else if pos + 8 > data.len() {
        Error::IoFailure
    } else if spec_seg_bytes(data, pos) != esz {
        Error::MalformedFraming
    } else if pos + 16 > data.len() {
        Error::IoFailure
    } else if spec_seg_offset(data, pos) != 0 {
        Error::MalformedFraming
    } else if spec_seg_end(data, pos) > data.len() {
        Error::IoFailure
    } else {
        Error::MalformedFraming
    }
}

/// The contents of a destination after the segment places `elems` at index
/// `off`: slots below `off` and above the written range keep their values,
/// and slots created by growth hold `dflt`. An empty run leaves the
/// destination unchanged.
pub open spec fn spec_apply_segment<E>(a: Seq<E>, dflt: E, off: int, elems: Seq<E>) -> Seq<E>
    recommends
        0 <= off,
{
    let n = elems.len() as int;
    let new_len = if n == 0 {
        a.len() as int
    } else if off + n > a.len() {
        off + n
    } else {
        a.len() as int
    };
    Seq::new(
        new_len as nat,
        |i: int|
            if off <= i < off + n {
                elems[i - off]
            } else if i < a.len() {
                a[i]
            } else {
                dflt
            },
    )
}

/// The payload of a run of scalars is as long as the run times the
/// element width.
pub proof fn lemma_scalar_payload_len<T: Scalar>(s: Seq<T>)
    ensures
        spec_scalar_payload(s).len() == s.len() * T::spec_ty().spec_size(),
    decreases s.len(),
{
    let sz = T::spec_ty().spec_size() as int;
    if s.len() == 0 {
        assert(s.len() * sz == 0) by (nonlinear_arith)
            requires
                s.len() == 0,
        ;
    } else {
        s[0].lemma_to_bytes_len();
        lemma_scalar_payload_len::<T>(s.subrange(1, s.len() as int));
        assert((s.len() - 1) * sz + sz == s.len() * sz) by (nonlinear_arith);
    }
}

/// Appending one scalar to a run appends its bytes to the payload.
pub proof fn lemma_scalar_payload_push<T: Scalar>(s: Seq<T>, v: T)
    ensures
        spec_scalar_payload(s.push(v)) == spec_scalar_payload(s) + v.spec_to_bytes(),
    decreases s.len(),
{
    let w = s.push(v);
    assert(w[0] == if s.len() == 0 {
        v
    } else {
        s[0]
    });
    if s.len() == 0 {
        assert(w.subrange(1, 1) =~= Seq::<T>::empty());
        assert(spec_scalar_payload(Seq::<T>::empty()) == Seq::<u8>::empty());
        assert(spec_scalar_payload(w) == v.spec_to_bytes() + spec_scalar_payload(
            w.subrange(1, 1),
        ));
        assert(spec_scalar_payload(w) =~= spec_scalar_payload(s) + v.spec_to_bytes());
    } else {
        let rest = s.subrange(1, s.len() as int);
        assert(w.subrange(1, s.len() as int + 1) =~= rest.push(v));
        lemma_scalar_payload_push::<T>(rest, v);
        assert(spec_scalar_payload(w) == s[0].spec_to_bytes() + spec_scalar_payload(
            rest.push(v),
        ));
        assert(spec_scalar_payload(w) =~= spec_scalar_payload(s) + v.spec_to_bytes());
    }
}

/// The bytes of element `k` sit `k` element-widths into the payload.
pub proof fn lemma_scalar_payload_index<T: Scalar>(s: Seq<T>, k: int)
    requires
        0 <= k < s.len(),
    ensures
        spec_scalar_payload(s).subrange(
            k * (T::spec_ty().spec_size() as int),
            (k + 1) * (T::spec_ty().spec_size() as int),
        ) == s[k].spec_to_bytes(),
    decreases k,
{
    let sz = T::spec_ty().spec_size() as int;
    let rest = s.subrange(1, s.len() as int);
    s[0].lemma_to_bytes_len();
    lemma_scalar_payload_len::<T>(s);
    lemma_scalar_payload_len::<T>(rest);
    assert(0 <= (s.len() - 1) * sz) by (nonlinear_arith)
        requires
            s.len() >= 1,
            sz >= 0,
    ;
    if k == 0 {
        assert(spec_scalar_payload(s).subrange(0, sz) =~= s[0].spec_to_bytes());
    } else {
        assert((k - 1) * sz == k * sz - sz && 0 <= (k - 1) * sz && (k + 1) * sz == k * sz + sz
            && k * sz <= (s.len() - 1) * sz) by (nonlinear_arith)
            requires
                1 <= k < s.len(),
                sz >= 1,
        ;
        lemma_scalar_payload_index::<T>(rest, k - 1);
        assert(spec_scalar_payload(s).subrange(k * sz, (k + 1) * sz) =~= spec_scalar_payload(
            rest,
        ).subrange((k - 1) * sz, k * sz));
    }
}

/// Law: parsing back the payload of a run of scalars recovers the run.
pub proof fn lemma_parse_scalar_payload<T: Scalar>(s: Seq<T>)
    ensures
        spec_parse_scalars::<T>(spec_scalar_payload(s), s.len() as int) == s,
{
    let parsed = spec_parse_scalars::<T>(spec_scalar_payload(s), s.len() as int);
    assert forall|k: int| 0 <= k < s.len() implies parsed[k] == s[k] by {
        lemma_scalar_payload_index::<T>(s, k);
        s[k].lemma_to_from_bytes();
    }
    assert(parsed =~= s);
}

/// The serialized bytes of a run of fixed-shape elements, each given by
/// its component scalars in order.
pub open spec fn spec_elems_payload<S: Scalar>(cs: Seq<Seq<S>>) -> Seq<u8>
    decreases cs.len(),
{
    if cs.len() == 0 {
        Seq::empty()
    } else {
        spec_scalar_payload(cs[0]) + spec_elems_payload(cs.subrange(1, cs.len() as int))
    }
}

/// The payload of a run of elements of `cnt` components each is as long
/// as the run times the element width.
pub proof fn lemma_elems_payload_len<S: Scalar>(cs: Seq<Seq<S>>, cnt: int)
    requires
        forall|k: int| 0 <= k < cs.len() ==> (#[trigger] cs[k]).len() == cnt,
    ensures
        spec_elems_payload(cs).len() == cs.len() * (cnt * S::spec_ty().spec_size()),
    decreases cs.len(),
{
    let esz = cnt * (S::spec_ty().spec_size() as int);
    if cs.len() == 0 {
        assert(cs.len() * esz == 0) by (nonlinear_arith)
            requires
                cs.len() == 0,
        ;
    } else {
        lemma_scalar_payload_len::<S>(cs[0]);
        let rest = cs.subrange(1, cs.len() as int);
        lemma_elems_payload_len::<S>(rest, cnt);
        assert(cs[0].len() * S::spec_ty().spec_size() == esz) by (nonlinear_arith)
            requires
                cs[0].len() == cnt,
                esz == cnt * (S::spec_ty().spec_size() as int),
        ;
        assert((cs.len() - 1) * esz + esz == cs.len() * esz) by (nonlinear_arith);
    }
}

/// Appending one element to a run appends its component bytes to the
/// payload.
pub proof fn lemma_elems_payload_push<S: Scalar>(cs: Seq<Seq<S>>, c: Seq<S>)
    ensures
        spec_elems_payload(cs.push(c)) == spec_elems_payload(cs) + spec_scalar_payload(c),
    decreases cs.len(),
{
    let w = cs.push(c);
    assert(w[0] == if cs.len() == 0 {
        c
    } else {
        cs[0]
    });
    if cs.len() == 0 {
        assert(w.subrange(1, 1) =~= Seq::<Seq<S>>::empty());
        assert(spec_elems_payload(Seq::<Seq<S>>::empty()) == Seq::<u8>::empty());
        assert(spec_elems_payload(w) == spec_scalar_payload(c) + spec_elems_payload(
            w.subrange(1, 1),
        ));
        assert(spec_elems_payload(w) =~= spec_elems_payload(cs) + spec_scalar_payload(c));
    } else {
        let rest = cs.subrange(1, cs.len() as int);
        assert(w.subrange(1, cs.len() as int + 1) =~= rest.push(c));
        lemma_elems_payload_push::<S>(rest, c);
        assert(spec_elems_payload(w) == spec_scalar_payload(cs[0]) + spec_elems_payload(
            rest.push(c),
        ));
        assert(spec_elems_payload(w) =~= spec_elems_payload(cs) + spec_scalar_payload(c));
    }
}

/// The bytes of element `k` sit `k` element-widths into the payload.
pub proof fn lemma_elems_payload_index<S: Scalar>(cs: Seq<Seq<S>>, cnt: int, k: int)
    requires
        forall|q: int| 0 <= q < cs.len() ==> (#[trigger] cs[q]).len() == cnt,
        0 <= k < cs.len(),
        0 <= cnt,
    ensures
        spec_elems_payload(cs).subrange(
            k * (cnt * S::spec_ty().spec_size()),
            (k + 1) * (cnt * S::spec_ty().spec_size()),
        ) == spec_scalar_payload(cs[k]),
    decreases k,
{
    let esz = cnt * (S::spec_ty().spec_size() as int);
    let rest = cs.subrange(1, cs.len() as int);
    lemma_scalar_payload_len::<S>(cs[0]);
    lemma_elems_payload_len::<S>(cs, cnt);
    lemma_elems_payload_len::<S>(rest, cnt);
    assert(cs[0].len() * S::spec_ty().spec_size() == esz) by (nonlinear_arith)
        requires
            cs[0].len() == cnt,
            esz == cnt * (S::spec_ty().spec_size() as int),
    ;
    assert(0 <= (cs.len() - 1) * esz) by (nonlinear_arith)
        requires
            cs.len() >= 1,
            esz >= 0,
    ;
    if k == 0 {
        assert(k * esz == 0 && (k + 1) * esz == esz) by (nonlinear_arith)
            requires
                k == 0,
        ;
        assert(spec_elems_payload(cs).subrange(0, esz) =~= spec_scalar_payload(cs[0]));
    } else {
        assert((k - 1) * esz == k * esz - esz && 0 <= (k - 1) * esz && (k + 1) * esz == k * esz
            + esz && k * esz <= (cs.len() - 1) * esz) by (nonlinear_arith)
            requires
                1 <= k < cs.len(),
                esz >= 0,
        ;
        lemma_elems_payload_index::<S>(rest, cnt, k - 1);
        assert(spec_elems_payload(cs).subrange(k * esz, (k + 1) * esz) =~= spec_elems_payload(
            rest,
        ).subrange((k - 1) * esz, k * esz));
    }
}

/// Law: a segment placed at offset zero into an empty destination yields
/// exactly the elements it carries.
pub proof fn lemma_apply_segment_into_empty<E>(a: Seq<E>, dflt: E, elems: Seq<E>)
    requires
        a.len() == 0,
    ensures
        spec_apply_segment(a, dflt, 0, elems) == elems,
{
    assert(spec_apply_segment(a, dflt, 0, elems) =~= elems);
}


/// Law — round trip for scalar arrays: a block written for the scalar run
/// `s` (type format, property id, one segment at offset zero, zero end
/// marker) reads back as a well-formed segment whose parsed elements are
/// exactly `s`, and placing them into an empty destination yields `s`.
pub proof fn lemma_scalar_block_round_trip<T: Scalar>(
    data: Seq<u8>,
    pos: int,
    code: u16,
    property_id: u16,
    s: Seq<T>,
)
    requires
        0 <= pos,
        s.len() <= usize::MAX,
        s.len() * T::spec_ty().spec_size() <= u64::MAX,
        data.subrange(pos, pos + 28 + s.len() * T::spec_ty().spec_size()) == spec_property_block(
            code,
            property_id,
            spec_scalar_payload(s),
        ),
        pos + 28 + s.len() * T::spec_ty().spec_size() <= data.len(),
    ensures
        spec_u16_at(data, pos) == code,
        spec_u16_at(data, pos + 2) == property_id,
        spec_seg_wf(data, pos + 4, T::spec_ty().spec_size() as int),
        spec_seg_offset(data, pos + 4) == 0,
        spec_seg_bytes(data, pos + 4) as int / (T::spec_ty().spec_size() as int) == s.len(),
        spec_parse_scalars::<T>(spec_seg_payload(data, pos + 4), s.len() as int) == s,
        spec_apply_segment(
            Seq::<T>::empty(),
            T::spec_default(),
            0,
            spec_parse_scalars::<T>(spec_seg_payload(data, pos + 4), s.len() as int),
        ) == s,
        spec_seg_end(data, pos + 4) == pos + 28 + s.len() * T::spec_ty().spec_size(),
{
    lemma_auto_spec_u16_to_from_le_bytes();
    lemma_auto_spec_u64_to_from_le_bytes();
    let sz = T::spec_ty().spec_size() as int;
    assert(1 <= sz <= 8);
    lemma_scalar_payload_len::<T>(s);
    let payload = spec_scalar_payload(s);
    let pl = payload.len() as int;
    let bytes_v = (s.len() * sz) as u64;
    assert(spec_u16_to_le_bytes(code).len() == 2);
    assert(spec_u16_to_le_bytes(property_id).len() == 2);
    let block = spec_property_block(code, property_id, payload);
    assert(block.len() == 28 + pl);
    assert forall|j: int| pos <= j < pos + 28 + pl implies #[trigger] data[j] == block[j - pos] by {
        assert(data.subrange(pos, pos + 28 + pl)[j - pos] == data[j]);
    }
    assert(data.subrange(pos, pos + 2) =~= spec_u16_to_le_bytes(code));
    assert(data.subrange(pos + 2, pos + 4) =~= spec_u16_to_le_bytes(property_id));
    assert(data.subrange(pos + 4, pos + 12) =~= spec_u64_to_le_bytes(bytes_v));
    assert(data.subrange(pos + 12, pos + 20) =~= spec_u64_to_le_bytes(0));
    assert(data.subrange(pos + 20 + pl, pos + 28 + pl) =~= spec_u64_to_le_bytes(0));
    assert(spec_seg_bytes(data, pos + 4) == bytes_v);
    assert(spec_seg_offset(data, pos + 4) == 0);
    assert(bytes_v as int % sz == 0 && bytes_v as int / sz == s.len()) by {
        lemma_mod_multiples_vanish(s.len() as int, 0, sz);
        lemma_div_multiples_vanish(s.len() as int, sz);
        assert(s.len() * sz == sz * s.len()) by (nonlinear_arith);
    }
    assert(spec_seg_payload(data, pos + 4) =~= payload);
    lemma_parse_scalar_payload::<T>(s);
    lemma_apply_segment_into_empty(
        Seq::<T>::empty(),
        T::spec_default(),
        spec_parse_scalars::<T>(spec_seg_payload(data, pos + 4), s.len() as int),
    );
}

/// Law — round trip for vector and matrix arrays: a block written for a
/// run of fixed-shape elements, given by their component scalars `cs`
/// (each of `cnt` components), reads back as a well-formed segment at
/// offset zero with one parsed component run per element, each equal to
/// the components that were written.
pub proof fn lemma_elems_block_round_trip<S: Scalar>(
    data: Seq<u8>,
    pos: int,
    code: u16,
    property_id: u16,
    cs: Seq<Seq<S>>,
    cnt: int,
)
    requires
        0 <= pos,
        1 <= cnt,
        forall|k: int| 0 <= k < cs.len() ==> (#[trigger] cs[k]).len() == cnt,
        cs.len() <= usize::MAX,
        cs.len() * (cnt * S::spec_ty().spec_size()) <= u64::MAX,
        data.subrange(
            pos,
            pos + 28 + cs.len() * (cnt * S::spec_ty().spec_size()),
        ) == spec_property_block(code, property_id, spec_elems_payload(cs)),
        pos + 28 + cs.len() * (cnt * S::spec_ty().spec_size()) <= data.len(),
    ensures
        spec_u16_at(data, pos) == code,
        spec_u16_at(data, pos + 2) == property_id,
        spec_seg_wf(data, pos + 4, cnt * S::spec_ty().spec_size()),
        spec_seg_offset(data, pos + 4) == 0,
        spec_seg_bytes(data, pos + 4) as int / (cnt * S::spec_ty().spec_size()) == cs.len(),
        forall|k: int|
            0 <= k < cs.len() ==> spec_parse_scalars::<S>(
                #[trigger] spec_seg_payload(data, pos + 4).subrange(
                    k * (cnt * S::spec_ty().spec_size()),
                    (k + 1) * (cnt * S::spec_ty().spec_size()),
                ),
                cnt,
            ) == cs[k],
        spec_seg_end(data, pos + 4) == pos + 28 + cs.len() * (cnt * S::spec_ty().spec_size()),
{
    lemma_auto_spec_u16_to_from_le_bytes();
    lemma_auto_spec_u64_to_from_le_bytes();
    let esz = cnt * (S::spec_ty().spec_size() as int);
    assert(1 <= S::spec_ty().spec_size() <= 8);
    assert(esz >= 1) by (nonlinear_arith)
        requires
            esz == cnt * (S::spec_ty().spec_size() as int),
            cnt >= 1,
            S::spec_ty().spec_size() >= 1,
    ;
    lemma_elems_payload_len::<S>(cs, cnt);
    let payload = spec_elems_payload(cs);
    let pl = payload.len() as int;
    let bytes_v = (cs.len() * esz) as u64;
    assert(spec_u16_to_le_bytes(code).len() == 2);
    assert(spec_u16_to_le_bytes(property_id).len() == 2);
    let block = spec_property_block(code, property_id, payload);
    assert(block.len() == 28 + pl);
    assert forall|j: int| pos <= j < pos + 28 + pl implies #[trigger] data[j] == block[j - pos] by {
        assert(data.subrange(pos, pos + 28 + pl)[j - pos] == data[j]);
    }
    assert(data.subrange(pos, pos + 2) =~= spec_u16_to_le_bytes(code));
    assert(data.subrange(pos + 2, pos + 4) =~= spec_u16_to_le_bytes(property_id));
    assert(data.subrange(pos + 4, pos + 12) =~= spec_u64_to_le_bytes(bytes_v));
    assert(data.subrange(pos + 12, pos + 20) =~= spec_u64_to_le_bytes(0));
    assert(data.subrange(pos + 20 + pl, pos + 28 + pl) =~= spec_u64_to_le_bytes(0));
    assert(spec_seg_bytes(data, pos + 4) == bytes_v);
    assert(spec_seg_offset(data, pos + 4) == 0);
    assert(bytes_v as int % esz == 0 && bytes_v as int / esz == cs.len()) by {
        lemma_mod_multiples_vanish(cs.len() as int, 0, esz);
        lemma_div_multiples_vanish(cs.len() as int, esz);
        assert(cs.len() * esz == esz * cs.len()) by (nonlinear_arith);
    }
    assert(spec_seg_payload(data, pos + 4) =~= payload);
    assert forall|k: int| 0 <= k < cs.len() implies spec_parse_scalars::<S>(
        #[trigger] spec_seg_payload(data, pos + 4).subrange(k * esz, (k + 1) * esz),
        cnt,
    ) == cs[k] by {
        lemma_elems_payload_index::<S>(cs, cnt, k);
        lemma_parse_scalar_payload::<S>(cs[k]);
        assert(spec_parse_scalars::<S>(spec_scalar_payload(cs[k]), cnt) == cs[k]);
    }
}

/// Law — idempotent re-read: the outcome of an array read is a function
/// of the stream bytes, the read position and the prior destination
/// alone, and a read never changes the stream bytes; so independent
/// traversals of the same saved stream into equal destinations yield
/// identical results.
pub proof fn lemma_reread_deterministic<T: Scalar>(
    d1: Seq<u8>,
    d2: Seq<u8>,
    pos: int,
    esz: int,
    a1: Seq<T>,
    a2: Seq<T>,
)
    requires
        d1 == d2,
        a1 == a2,
    ensures
        spec_seg_wf(d1, pos, esz) == spec_seg_wf(d2, pos, esz),
        spec_apply_segment(
            a1,
            T::spec_default(),
            spec_seg_offset(d1, pos) as int,
            spec_parse_scalars::<T>(spec_seg_payload(d1, pos), spec_seg_bytes(d1, pos) as int / esz),
        ) == spec_apply_segment(
            a2,
            T::spec_default(),
            spec_seg_offset(d2, pos) as int,
            spec_parse_scalars::<T>(spec_seg_payload(d2, pos), spec_seg_bytes(d2, pos) as int / esz),
        ),
{
}

} // verus!

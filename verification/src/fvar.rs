//! The `fvar` (font variations) table: the variation axes and the named instances.
//! Axis values and instance coordinates are 16.16 fixed-point numbers held as
//! their 32-bit patterns; tags are the big-endian numbers of their four bytes.
use crate::binary::{
    be16, be32, bei32, bei32_seq, i32_at, lemma_read_be16, lemma_read_be32, lemma_read_bei32, push_i32, push_u16,
    push_u32, read_i32, read_u16, read_u32, u16_at, u32_at, DeserializationError, SerializationError,
};
use vstd::prelude::*;

verus! {

/// A variation axis: its tag, its range and default, flags, and the name ID of its name.
#[derive(Debug, PartialEq, Clone, Copy)]
pub struct VariationAxisRecord {
    pub axisTag: u32,
    pub minValue: i32,
    pub defaultValue: i32,
    pub maxValue: i32,
    pub flags: u16,
    pub axisNameID: u16,
}

/// A named instance: the name ID of its subfamily name, its coordinate on each
/// axis, and the name ID of its PostScript name if the table records those.
#[derive(Debug, PartialEq)]
pub struct InstanceRecord {
    pub subfamilyNameID: u16,
    pub coordinates: Vec<i32>,
    pub postscriptNameID: Option<u16>,
}

/// The font variations table.
#[derive(Debug, PartialEq)]
pub struct fvar {
    pub axes: Vec<VariationAxisRecord>,
    pub instances: Vec<InstanceRecord>,
}

/// An instance in mathematical form.
pub open spec fn instance_view(r: InstanceRecord) -> (u16, Seq<i32>, Option<u16>) {
    (r.subfamilyNameID, r.coordinates@, r.postscriptNameID)
}

pub open spec fn instances_view(v: Seq<InstanceRecord>) -> Seq<(u16, Seq<i32>, Option<u16>)> {
    v.map_values(|r: InstanceRecord| instance_view(r))
}

/// The axis record stored at `q` (20 bytes).
pub open spec fn axis_at(s: Seq<u8>, q: int) -> VariationAxisRecord {
    VariationAxisRecord {
        axisTag: u32_at(s, q),
        minValue: i32_at(s, q + 4),
        defaultValue: i32_at(s, q + 8),
        maxValue: i32_at(s, q + 12),
        flags: u16_at(s, q + 16),
        axisNameID: u16_at(s, q + 18),
    }
}

/// The length of an instance record with `axis_count` coordinates.
pub open spec fn instance_len(axis_count: int, has_ps: bool) -> int {
    4 + 4 * axis_count + if has_ps { 2int } else { 0int }
}

/// The instance record stored at `q`: subfamily name ID, flags (not kept),
/// coordinates, and the PostScript name ID if the table has them.
pub open spec fn instance_at(s: Seq<u8>, q: int, axis_count: int, has_ps: bool) -> (u16, Seq<i32>, Option<u16>) {
    (
        u16_at(s, q),
        Seq::new(axis_count as nat, |k: int| i32_at(s, q + 4 + 4 * k)),
        if has_ps { Some(u16_at(s, q + 4 + 4 * axis_count)) } else { None },
    )
}

/// Reading an `fvar` table: the 16-byte header, `axisCount` axis records of 20
/// bytes from `axesArrayOffset`, then `instanceCount` instance records from
/// `axisCount * axisSize` bytes further on; the instances have PostScript name
/// IDs when `instanceSize` is `axisCount * 4 + 6`. `None` for data too short;
/// undefined (`Some(None)`) where the axis offset is below 16 or past the end,
/// where a 16-bit product overflows, or where the instances start past the end.
pub open spec fn fvar_reading(s: Seq<u8>) -> Option<
    Option<(Seq<VariationAxisRecord>, Seq<(u16, Seq<i32>, Option<u16>)>)>,
> {
    if s.len() < 16 {
        None
    } else {
        let offset = u16_at(s, 4) as int;
        let axis_count = u16_at(s, 8) as int;
        let axis_size = u16_at(s, 10) as int;
        let instance_count = u16_at(s, 12) as int;
        let instance_size = u16_at(s, 14) as int;
        let start = offset + axis_count * axis_size;
        let has_ps = instance_size == 4 * axis_count + 6;
        if offset < 16 || offset > s.len() {
            Some(None)
        } else if offset + 20 * axis_count > s.len() {
            None
        } else if axis_count * axis_size > 65535 || start > s.len() || 4 * axis_count + 6 > 65535 {
            Some(None)
        } else if start + instance_count * instance_len(axis_count, has_ps) > s.len() {
            None
        } else {
            Some(
                Some(
                    (
                        Seq::new(axis_count as nat, |i: int| axis_at(s, offset + 20 * i)),
                        Seq::new(
                            instance_count as nat,
                            |i: int| instance_at(s, start + i * instance_len(axis_count, has_ps), axis_count, has_ps),
                        ),
                    ),
                ),
            )
        }
    }
}

/// The bytes of an axis record.
pub open spec fn axis_bytes(a: VariationAxisRecord) -> Seq<u8> {
    be32(a.axisTag) + bei32(a.minValue) + bei32(a.defaultValue) + bei32(a.maxValue) + be16(a.flags) + be16(
        a.axisNameID,
    )
}

pub open spec fn axes_bytes(v: Seq<VariationAxisRecord>) -> Seq<u8>
    decreases v.len(),
{
    if v.len() == 0 {
        Seq::empty()
    } else {
        axes_bytes(v.drop_last()) + axis_bytes(v.last())
    }
}

/// The bytes of an instance record: subfamily name ID, zero flags, the
/// coordinates, and the PostScript name ID where the table records those.
pub open spec fn instance_bytes(r: (u16, Seq<i32>, Option<u16>), has_ps: bool) -> Seq<u8> {
    be16(r.0) + be16(0) + bei32_seq(r.1) + if has_ps {
        match r.2 {
            Some(id) => be16(id),
            None => Seq::empty(),
        }
    } else {
        Seq::empty()
    }
}

pub open spec fn instances_bytes(v: Seq<(u16, Seq<i32>, Option<u16>)>, has_ps: bool) -> Seq<u8>
    decreases v.len(),
{
    if v.len() == 0 {
        Seq::empty()
    } else {
        instances_bytes(v.drop_last(), has_ps) + instance_bytes(v.last(), has_ps)
    }
}

/// Whether any instance records a PostScript name ID.
pub open spec fn any_ps(v: Seq<(u16, Seq<i32>, Option<u16>)>) -> bool {
    exists|i: int| 0 <= i < v.len() && (#[trigger] v[i]).2 is Some
}

/// Whether every instance records a PostScript name ID.
pub open spec fn all_ps(v: Seq<(u16, Seq<i32>, Option<u16>)>) -> bool {
    forall|i: int| 0 <= i < v.len() ==> (#[trigger] v[i]).2 is Some
}

/// The bytes of an `fvar` table: version 1.0, axes at offset 16, the reserved
/// field 2, the counts and sizes (cut to 16 bits), the axes, then the instances.
pub open spec fn fvar_encoding(axes: Seq<VariationAxisRecord>, inst: Seq<(u16, Seq<i32>, Option<u16>)>) -> Seq<u8> {
    let has_ps = any_ps(inst);
    be16(1) + be16(0) + be16(16) + be16(2) + be16(axes.len() as u16) + be16(20) + be16(inst.len() as u16) + be16(
        (axes.len() * 4 + if has_ps { 6int } else { 4int }) as u16,
    ) + axes_bytes(axes) + instances_bytes(inst, has_ps)
}

/// Reads the axis record at `q`.
fn read_axis(data: &[u8], q: usize) -> (r: VariationAxisRecord)
    requires
        q + 20 <= data@.len(),
    ensures
        r == axis_at(data@, q as int),
{
    assert(q + 20 <= data.len());
    VariationAxisRecord {
        axisTag: read_u32(data, q).unwrap(),
        minValue: read_i32(data, q + 4).unwrap(),
        defaultValue: read_i32(data, q + 8).unwrap(),
        maxValue: read_i32(data, q + 12).unwrap(),
        flags: read_u16(data, q + 16).unwrap(),
        axisNameID: read_u16(data, q + 18).unwrap(),
    }
}

/// Reads the instance record at `q`.
fn read_instance(data: &[u8], q: usize, axis_count: u16, has_ps: bool) -> (r: InstanceRecord)
    requires
        q + instance_len(axis_count as int, has_ps) <= data@.len(),
    ensures
        instance_view(r) == instance_at(data@, q as int, axis_count as int, has_ps),
{
    let subfamilyNameID = read_u16(data, q).unwrap();
    let mut coordinates: Vec<i32> = Vec::new();
    let mut k: usize = 0;
    while k < axis_count as usize
        invariant
            k <= axis_count,
            q + instance_len(axis_count as int, has_ps) <= data@.len(),
            coordinates@ == Seq::new(k as nat, |j: int| i32_at(data@, q + 4 + 4 * j)),
        decreases axis_count - k,
    {
        assert(q + 4 + 4 * k + 4 <= data.len());
        coordinates.push(read_i32(data, q + 4 + 4 * k).unwrap());
        assert(coordinates@ =~= Seq::new((k + 1) as nat, |j: int| i32_at(data@, q + 4 + 4 * j)));
        k = k + 1;
    }
    let postscriptNameID = if has_ps {
        assert(q + 4 + 4 * axis_count + 2 <= data.len());
        Some(read_u16(data, q + 4 + 4 * axis_count as usize).unwrap())
    } else {
        None
    };
    InstanceRecord { subfamilyNameID, coordinates, postscriptNameID }
}

impl fvar {
    /// Reads an `fvar` table.
    pub fn from_bytes(data: &[u8]) -> (r: Result<fvar, DeserializationError>)
        requires
            fvar_reading(data@) != Some(
                None::<(Seq<VariationAxisRecord>, Seq<(u16, Seq<i32>, Option<u16>)>)>,
            ),
        ensures
            match r {
                Ok(t) => fvar_reading(data@) == Some(Some((t.axes@, instances_view(t.instances@)))),
                Err(_) => fvar_reading(data@) is None,
            },
    {
        if data.len() < 16 {
            return Err(DeserializationError::UnexpectedEof);
        }
        let offset = read_u16(data, 4).unwrap() as usize;
        let axis_count = read_u16(data, 8).unwrap();
        let axis_size = read_u16(data, 10).unwrap();
        let instance_count = read_u16(data, 12).unwrap();
        let instance_size = read_u16(data, 14).unwrap();
        if offset < 16 || offset > data.len() {
            return Err(DeserializationError::BadFormat);
        }
        if (offset as u128) + 20 * (axis_count as u128) > data.len() as u128 {
            return Err(DeserializationError::UnexpectedEof);
        }
        let mut axes: Vec<VariationAxisRecord> = Vec::new();
        let mut i: usize = 0;
        while i < axis_count as usize
            invariant
                i <= axis_count,
                offset + 20 * axis_count <= data@.len(),
                axes@ == Seq::new(i as nat, |j: int| axis_at(data@, offset + 20 * j)),
            decreases axis_count - i,
        {
            assert(offset + 20 * i + 20 <= data.len());
            axes.push(read_axis(data, offset + 20 * i));
            assert(axes@ =~= Seq::new((i + 1) as nat, |j: int| axis_at(data@, offset + 20 * j)));
            i = i + 1;
        }
        if (axis_count as u32) * (axis_size as u32) > 65535 || 4 * (axis_count as u32) + 6 > 65535 {
            return Err(DeserializationError::BadFormat);
        }
        let span = (axis_count as usize) * (axis_size as usize);
        if span > data.len() - offset {
            return Err(DeserializationError::BadFormat);
        }
        let start = offset + span;
        let has_ps = instance_size as u32 == 4 * (axis_count as u32) + 6;
        let inst_len: usize = 4 + 4 * axis_count as usize + if has_ps { 2 } else { 0 };
        assert(inst_len == instance_len(axis_count as int, has_ps));
        assert((instance_count as u128) * (inst_len as u128) <= 65535 * 262146) by (nonlinear_arith)
            requires
                instance_count <= 65535,
                inst_len <= 262146,
        ;
        let total: u128 = (instance_count as u128) * (inst_len as u128);
        if (start as u128) + total > data.len() as u128 {
            return Err(DeserializationError::UnexpectedEof);
        }
        let mut instances: Vec<InstanceRecord> = Vec::new();
        let mut q: usize = start;
        let mut j: usize = 0;
        let ghost inst_spec = Seq::new(
            instance_count as nat,
            |n: int| instance_at(data@, start + n * inst_len, axis_count as int, has_ps),
        );
        while j < instance_count as usize
            invariant
                j <= instance_count,
                q == start + j * inst_len,
                start + instance_count * inst_len <= data@.len(),
                inst_len == instance_len(axis_count as int, has_ps),
                inst_spec == Seq::new(
                    instance_count as nat,
                    |n: int| instance_at(data@, start + n * inst_len, axis_count as int, has_ps),
                ),
                instances_view(instances@) == inst_spec.take(j as int),
            decreases instance_count - j,
        {
            assert((j + 1) * inst_len <= instance_count * inst_len) by (nonlinear_arith)
                requires
                    j + 1 <= instance_count,
            ;
            assert(j * inst_len + inst_len == (j + 1) * inst_len) by (nonlinear_arith);
            assert(q + inst_len <= data.len());
            let r = read_instance(data, q, axis_count, has_ps);
            assert(instance_view(r) == inst_spec[j as int]);
            let ghost before = instances@;
            instances.push(r);
            assert(instances_view(instances@) =~= instances_view(before).push(inst_spec[j as int]));
            assert(inst_spec.take(j + 1) =~= inst_spec.take(j as int).push(inst_spec[j as int]));
            q = q + inst_len;
            j = j + 1;
        }
        assert(inst_spec.take(j as int) =~= inst_spec);
        Ok(fvar { axes, instances })
    }

    /// The table in binary form; an error where some instances record a
    /// PostScript name ID and others do not.
    pub fn to_bytes(&self) -> (r: Result<Vec<u8>, SerializationError>)
        ensures
            match r {
                Ok(b) => !(any_ps(instances_view(self.instances@)) && !all_ps(instances_view(self.instances@)))
                    && b@ == fvar_encoding(self.axes@, instances_view(self.instances@)),
                Err(_) => any_ps(instances_view(self.instances@)) && !all_ps(instances_view(self.instances@)),
            },
    {
        let ghost inst = instances_view(self.instances@);
        let mut has_ps = false;
        let mut all = true;
        let mut i: usize = 0;
        while i < self.instances.len()
            invariant
                i <= self.instances@.len(),
                inst == instances_view(self.instances@),
                has_ps == exists|j: int| 0 <= j < i && (#[trigger] inst[j]).2 is Some,
                all == forall|j: int| 0 <= j < i ==> (#[trigger] inst[j]).2 is Some,
            decreases self.instances@.len() - i,
        {
            if self.instances[i].postscriptNameID.is_some() {
                has_ps = true;
            } else {
                all = false;
            }
            assert(inst[i as int] == instance_view(self.instances@[i as int]));
            i = i + 1;
        }
        if has_ps && !all {
            return Err(SerializationError::InconsistentPostscriptNameIDs);
        }
        let mut out: Vec<u8> = Vec::new();
        push_u16(&mut out, 1);
        push_u16(&mut out, 0);
        push_u16(&mut out, 16);
        push_u16(&mut out, 2);
        push_u16(&mut out, #[verifier::truncate] (self.axes.len() as u16));
        push_u16(&mut out, 20);
        push_u16(&mut out, #[verifier::truncate] (self.instances.len() as u16));
        push_u16(
            &mut out,
            #[verifier::truncate] (((self.axes.len() as u128) * 4 + if has_ps { 6 } else { 4 }) as u16),
        );
        let ghost head = out@;
        let mut a: usize = 0;
        while a < self.axes.len()
            invariant
                a <= self.axes@.len(),
                out@ == head + axes_bytes(self.axes@.take(a as int)),
            decreases self.axes@.len() - a,
        {
            let axis = self.axes[a];
            push_u32(&mut out, axis.axisTag);
            push_i32(&mut out, axis.minValue);
            push_i32(&mut out, axis.defaultValue);
            push_i32(&mut out, axis.maxValue);
            push_u16(&mut out, axis.flags);
            push_u16(&mut out, axis.axisNameID);
            assert(self.axes@.take(a + 1).drop_last() =~= self.axes@.take(a as int));
            assert(out@ =~= head + axes_bytes(self.axes@.take(a + 1)));
            a = a + 1;
        }
        assert(self.axes@.take(a as int) =~= self.axes@);
        let ghost mid = out@;
        let mut n: usize = 0;
        while n < self.instances.len()
            invariant
                n <= self.instances@.len(),
                inst == instances_view(self.instances@),
                out@ == mid + instances_bytes(inst.take(n as int), has_ps),
            decreases self.instances@.len() - n,
        {
            let r = &self.instances[n];
            let ghost before = out@;
            push_u16(&mut out, r.subfamilyNameID);
            push_u16(&mut out, 0);
            let ghost coords_start = out@;
            let mut k: usize = 0;
            while k < r.coordinates.len()
                invariant
                    k <= r.coordinates@.len(),
                    out@ == coords_start + bei32_seq(r.coordinates@.take(k as int)),
                decreases r.coordinates@.len() - k,
            {
                push_i32(&mut out, r.coordinates[k]);
                assert(r.coordinates@.take(k + 1).drop_last() =~= r.coordinates@.take(k as int));
                k = k + 1;
            }
            assert(r.coordinates@.take(k as int) =~= r.coordinates@);
            if has_ps {
                match r.postscriptNameID {
                    Some(id) => push_u16(&mut out, id),
                    None => {},
                }
            }
            proof {
                assert(inst[n as int] == instance_view(*r));
                assert(inst.take(n + 1).drop_last() =~= inst.take(n as int));
                assert(out@ =~= before + instance_bytes(inst[n as int], has_ps));
            }
            n = n + 1;
        }
        assert(inst.take(n as int) =~= inst);
        proof {
            assert(has_ps == any_ps(inst));
            assert(out@ =~= fvar_encoding(self.axes@, inst));
        }
        Ok(out)
    }
}

proof fn lemma_axes_bytes_concat(a: Seq<VariationAxisRecord>, b: Seq<VariationAxisRecord>)
    ensures
        axes_bytes(a + b) == axes_bytes(a) + axes_bytes(b),
    decreases b.len(),
{
    if b.len() == 0 {
        assert(a + b =~= a);
    } else {
        lemma_axes_bytes_concat(a, b.drop_last());
        assert((a + b).drop_last() =~= a + b.drop_last());
    }
}

proof fn lemma_axes_bytes_len(a: Seq<VariationAxisRecord>)
    ensures
        axes_bytes(a).len() == 20 * a.len(),
    decreases a.len(),
{
    if a.len() > 0 {
        lemma_axes_bytes_len(a.drop_last());
    }
}

/// An axis record written between two byte strings reads back.
proof fn lemma_axis_read(pre: Seq<u8>, a: VariationAxisRecord, post: Seq<u8>)
    ensures
        axis_at(pre + axis_bytes(a) + post, pre.len() as int) == a,
{
    let f0 = be32(a.axisTag);
    let f1 = bei32(a.minValue);
    let f2 = bei32(a.defaultValue);
    let f3 = bei32(a.maxValue);
    let f4 = be16(a.flags);
    let f5 = be16(a.axisNameID);
    let s = pre + axis_bytes(a) + post;
    lemma_read_be32(pre, a.axisTag, f1 + f2 + f3 + f4 + f5 + post);
    assert(s =~= pre + f0 + (f1 + f2 + f3 + f4 + f5 + post));
    lemma_read_bei32(pre + f0, a.minValue, f2 + f3 + f4 + f5 + post);
    assert(s =~= (pre + f0) + f1 + (f2 + f3 + f4 + f5 + post));
    lemma_read_bei32(pre + f0 + f1, a.defaultValue, f3 + f4 + f5 + post);
    assert(s =~= (pre + f0 + f1) + f2 + (f3 + f4 + f5 + post));
    lemma_read_bei32(pre + f0 + f1 + f2, a.maxValue, f4 + f5 + post);
    assert(s =~= (pre + f0 + f1 + f2) + f3 + (f4 + f5 + post));
    lemma_read_be16(pre + f0 + f1 + f2 + f3, a.flags, f5 + post);
    assert(s =~= (pre + f0 + f1 + f2 + f3) + f4 + (f5 + post));
    lemma_read_be16(pre + f0 + f1 + f2 + f3 + f4, a.axisNameID, post);
    assert(s =~= (pre + f0 + f1 + f2 + f3 + f4) + f5 + post);
}

proof fn lemma_instances_bytes_concat(
    a: Seq<(u16, Seq<i32>, Option<u16>)>,
    b: Seq<(u16, Seq<i32>, Option<u16>)>,
    ps: bool,
)
    ensures
        instances_bytes(a + b, ps) == instances_bytes(a, ps) + instances_bytes(b, ps),
    decreases b.len(),
{
    if b.len() == 0 {
        assert(a + b =~= a);
    } else {
        lemma_instances_bytes_concat(a, b.drop_last(), ps);
        assert((a + b).drop_last() =~= a + b.drop_last());
    }
}

proof fn lemma_bei32_seq_len(v: Seq<i32>)
    ensures
        bei32_seq(v).len() == 4 * v.len(),
    decreases v.len(),
{
    if v.len() > 0 {
        lemma_bei32_seq_len(v.drop_last());
    }
}

/// Element `k` of a list of `int32`s written between two byte strings reads back.
proof fn lemma_bei32_seq_read(pre: Seq<u8>, v: Seq<i32>, post: Seq<u8>, k: int)
    requires
        0 <= k < v.len(),
    ensures
        i32_at(pre + bei32_seq(v) + post, pre.len() + 4 * k) == v[k],
    decreases v.len(),
{
    let init = v.drop_last();
    lemma_bei32_seq_len(init);
    if k == v.len() - 1 {
        lemma_read_bei32(pre + bei32_seq(init), v.last(), post);
        assert(pre + bei32_seq(v) + post =~= (pre + bei32_seq(init)) + bei32(v.last()) + post);
    } else {
        lemma_bei32_seq_read(pre, init, bei32(v.last()) + post, k);
        assert(pre + bei32_seq(v) + post =~= pre + bei32_seq(init) + (bei32(v.last()) + post));
    }
}

/// Every instance has one coordinate per axis, and a PostScript name ID exactly
/// where `ps` says.
pub open spec fn instances_shaped(v: Seq<(u16, Seq<i32>, Option<u16>)>, n: int, ps: bool) -> bool {
    forall|i: int| 0 <= i < v.len() ==> (#[trigger] v[i]).1.len() == n && (v[i].2 is Some) == ps
}

proof fn lemma_instances_bytes_len(v: Seq<(u16, Seq<i32>, Option<u16>)>, n: int, ps: bool)
    requires
        instances_shaped(v, n, ps),
        n >= 0,
    ensures
        instances_bytes(v, ps).len() == v.len() * instance_len(n, ps),
    decreases v.len(),
{
    if v.len() > 0 {
        lemma_instances_bytes_len(v.drop_last(), n, ps);
        lemma_bei32_seq_len(v.last().1);
        let l = instance_len(n, ps);
        assert((v.len() - 1) * l + l == v.len() * l) by (nonlinear_arith);
    }
}

/// An instance record written between two byte strings reads back.
proof fn lemma_instance_read(pre: Seq<u8>, r: (u16, Seq<i32>, Option<u16>), ps: bool, post: Seq<u8>)
    requires
        (r.2 is Some) == ps,
    ensures
        instance_at(pre + instance_bytes(r, ps) + post, pre.len() as int, r.1.len() as int, ps) == r,
{
    let s = pre + instance_bytes(r, ps) + post;
    let tail = if ps { be16(r.2->0) } else { Seq::empty() };
    assert(s =~= pre + be16(r.0) + (be16(0) + bei32_seq(r.1) + tail + post));
    lemma_read_be16(pre, r.0, be16(0) + bei32_seq(r.1) + tail + post);
    lemma_bei32_seq_len(r.1);
    assert forall|k: int| 0 <= k < r.1.len() implies i32_at(s, pre.len() + 4 + 4 * k) == r.1[k] by {
        lemma_bei32_seq_read(pre + be16(r.0) + be16(0), r.1, tail + post, k);
        assert(s =~= (pre + be16(r.0) + be16(0)) + bei32_seq(r.1) + (tail + post));
    }
    assert(Seq::new(r.1.len() as nat, |k: int| i32_at(s, pre.len() + 4 + 4 * k)) =~= r.1);
    if ps {
        lemma_read_be16(pre + be16(r.0) + be16(0) + bei32_seq(r.1), r.2->0, post);
        assert(s =~= (pre + be16(r.0) + be16(0) + bei32_seq(r.1)) + be16(r.2->0) + post);
    }
}

/// The 16-byte header of an encoded table.
pub open spec fn fvar_header_bytes(axes: Seq<VariationAxisRecord>, inst: Seq<(u16, Seq<i32>, Option<u16>)>) -> Seq<u8> {
    be16(1) + be16(0) + be16(16) + be16(2) + be16(axes.len() as u16) + be16(20) + be16(inst.len() as u16) + be16(
        (axes.len() * 4 + if any_ps(inst) { 6int } else { 4int }) as u16,
    )
}

#[verifier::spinoff_prover]
proof fn lemma_fvar_header_read(axes: Seq<VariationAxisRecord>, inst: Seq<(u16, Seq<i32>, Option<u16>)>, rest: Seq<u8>)
    requires
        axes.len() <= 3276,
        inst.len() <= 65535,
    ensures
        ({
            let s = fvar_header_bytes(axes, inst) + rest;
            &&& s.len() == 16 + rest.len()
            &&& u16_at(s, 4) == 16
            &&& u16_at(s, 8) == axes.len()
            &&& u16_at(s, 10) == 20
            &&& u16_at(s, 12) == inst.len()
            &&& u16_at(s, 14) == 4 * axes.len() + if any_ps(inst) { 6int } else { 4int }
        }),
{
    let n = axes.len() as int;
    let w = (n * 4 + if any_ps(inst) { 6int } else { 4int }) as u16;
    let s = fvar_header_bytes(axes, inst) + rest;
    let p4 = be16(1) + be16(0);
    lemma_read_be16(p4, 16, be16(2) + be16(n as u16) + be16(20) + be16(inst.len() as u16) + be16(w) + rest);
    assert(s =~= p4 + be16(16) + (be16(2) + be16(n as u16) + be16(20) + be16(inst.len() as u16) + be16(w) + rest));
    let p8 = p4 + be16(16) + be16(2);
    lemma_read_be16(p8, n as u16, be16(20) + be16(inst.len() as u16) + be16(w) + rest);
    assert(s =~= p8 + be16(n as u16) + (be16(20) + be16(inst.len() as u16) + be16(w) + rest));
    let p10 = p8 + be16(n as u16);
    lemma_read_be16(p10, 20, be16(inst.len() as u16) + be16(w) + rest);
    assert(s =~= p10 + be16(20) + (be16(inst.len() as u16) + be16(w) + rest));
    let p12 = p10 + be16(20);
    lemma_read_be16(p12, inst.len() as u16, be16(w) + rest);
    assert(s =~= p12 + be16(inst.len() as u16) + (be16(w) + rest));
    let p14 = p12 + be16(inst.len() as u16);
    lemma_read_be16(p14, w, rest);
    assert(s =~= p14 + be16(w) + rest);
}

proof fn lemma_axes_split(axes: Seq<VariationAxisRecord>, i: int)
    requires
        0 <= i < axes.len(),
    ensures
        axes_bytes(axes) == axes_bytes(axes.take(i)) + axis_bytes(axes[i]) + axes_bytes(axes.skip(i + 1)),
        axes_bytes(axes.take(i)).len() == 20 * i,
{
    lemma_axes_bytes_concat(axes.take(i), axes.skip(i));
    assert(axes.take(i) + axes.skip(i) =~= axes);
    lemma_axes_bytes_concat(seq![axes[i]], axes.skip(i + 1));
    assert(seq![axes[i]] + axes.skip(i + 1) =~= axes.skip(i));
    let one = seq![axes[i]];
    assert(one.drop_last() =~= Seq::<VariationAxisRecord>::empty());
    assert(one.last() == axes[i]);
    assert(axes_bytes(Seq::<VariationAxisRecord>::empty()) == Seq::<u8>::empty());
    assert(axes_bytes(one) =~= axis_bytes(axes[i]));
    lemma_axes_bytes_len(axes.take(i));
}

#[verifier::spinoff_prover]
proof fn lemma_fvar_axes_read(h: Seq<u8>, axes: Seq<VariationAxisRecord>, ib: Seq<u8>, i: int)
    requires
        h.len() == 16,
        0 <= i < axes.len(),
    ensures
        axis_at(h + axes_bytes(axes) + ib, 16 + 20 * i) == axes[i],
{
    lemma_axes_split(axes, i);
    let pre = h + axes_bytes(axes.take(i));
    let post = axes_bytes(axes.skip(i + 1)) + ib;
    lemma_axis_read(pre, axes[i], post);
    assert(h + axes_bytes(axes) + ib =~= pre + axis_bytes(axes[i]) + post);
}

proof fn lemma_instances_split(inst: Seq<(u16, Seq<i32>, Option<u16>)>, n: int, ps: bool, i: int)
    requires
        n >= 0,
        instances_shaped(inst, n, ps),
        0 <= i < inst.len(),
    ensures
        instances_bytes(inst, ps) == instances_bytes(inst.take(i), ps) + instance_bytes(inst[i], ps) + instances_bytes(
            inst.skip(i + 1),
            ps,
        ),
        instances_bytes(inst.take(i), ps).len() == i * instance_len(n, ps),
{
    lemma_instances_bytes_concat(inst.take(i), inst.skip(i), ps);
    assert(inst.take(i) + inst.skip(i) =~= inst);
    lemma_instances_bytes_concat(seq![inst[i]], inst.skip(i + 1), ps);
    assert(seq![inst[i]] + inst.skip(i + 1) =~= inst.skip(i));
    let one = seq![inst[i]];
    assert(one.drop_last() =~= Seq::<(u16, Seq<i32>, Option<u16>)>::empty());
    assert(one.last() == inst[i]);
    assert(instances_bytes(Seq::<(u16, Seq<i32>, Option<u16>)>::empty(), ps) == Seq::<u8>::empty());
    assert(instances_bytes(one, ps) =~= instance_bytes(inst[i], ps));
    assert(instances_shaped(inst.take(i), n, ps));
    lemma_instances_bytes_len(inst.take(i), n, ps);
}

#[verifier::spinoff_prover]
proof fn lemma_fvar_instance_read(pre: Seq<u8>, inst: Seq<(u16, Seq<i32>, Option<u16>)>, n: int, ps: bool, i: int)
    requires
        n >= 0,
        instances_shaped(inst, n, ps),
        0 <= i < inst.len(),
    ensures
        instance_at(pre + instances_bytes(inst, ps), pre.len() + i * instance_len(n, ps), n, ps) == inst[i],
{
    lemma_instances_split(inst, n, ps, i);
    assert(inst[i].1.len() == n);
    let front = pre + instances_bytes(inst.take(i), ps);
    let back = instances_bytes(inst.skip(i + 1), ps);
    lemma_instance_read(front, inst[i], ps, back);
    assert(pre + instances_bytes(inst, ps) =~= front + instance_bytes(inst[i], ps) + back);
}

/// What `to_bytes` writes, `from_bytes` reads back: for tables whose instances
/// all have one coordinate per axis and all or none a PostScript name ID, with
/// at most 3276 axes (so that the 20-byte axis records span at most 65535
/// bytes) and at most 65535 instances.
#[verifier::spinoff_prover]
pub proof fn lemma_fvar_roundtrip(axes: Seq<VariationAxisRecord>, inst: Seq<(u16, Seq<i32>, Option<u16>)>)
    requires
        axes.len() <= 3276,
        inst.len() <= 65535,
        instances_shaped(inst, axes.len() as int, any_ps(inst)),
    ensures
        fvar_reading(fvar_encoding(axes, inst)) == Some(Some((axes, inst))),
{
    let ps = any_ps(inst);
    let n = axes.len() as int;
    let l = instance_len(n, ps);
    let h = fvar_header_bytes(axes, inst);
    let ab = axes_bytes(axes);
    let ib = instances_bytes(inst, ps);
    let s = fvar_encoding(axes, inst);
    assert(s =~= h + ab + ib);
    assert(s =~= h + (ab + ib));
    lemma_fvar_header_read(axes, inst, ab + ib);
    lemma_axes_bytes_len(axes);
    lemma_instances_bytes_len(inst, n, ps);
    let start = 16 + n * 20;
    assert forall|i: int| 0 <= i < n implies axis_at(s, 16 + 20 * i) == axes[i] by {
        lemma_fvar_axes_read(h, axes, ib, i);
    }
    assert(Seq::new(n as nat, |i: int| axis_at(s, 16 + 20 * i)) =~= axes);
    assert forall|i: int| 0 <= i < inst.len() implies instance_at(s, start + i * l, n, ps) == inst[i] by {
        lemma_fvar_instance_read(h + ab, inst, n, ps, i);
        assert(s =~= (h + ab) + ib);
    }
    assert(Seq::new(inst.len() as nat, |i: int| instance_at(s, start + i * l, n, ps)) =~= inst);
}

} // verus!

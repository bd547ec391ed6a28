//! Raw extended-data (EED) codec for Land Survey XDATA, and the per-entity
//! decisions that keep it round-tripping through DWG save/reopen.
//!
//! Byte layout mirrors the DWG XDATA stream: a 1-byte value code, then the
//! value. Strings: wide = `[u16 len][UTF-16 units]`; narrow = `[u8 len][u16
//! codepage][bytes]`. Multi-byte numbers are little-endian; real numbers and
//! coordinates travel as the 8 bytes of their IEEE-754 bit pattern, so the
//! library holds them as those bit patterns (`u64`).
use vstd::prelude::*;
use vstd::slice::slice_subrange;
use vstd::string::StringSliceAdditionalSpecFns;

use crate::text::{chars_equal, chars_of};

verus! {

// ---------------------------------------------------------------------------
// little-endian integers
// ---------------------------------------------------------------------------

/// `256^n`.
pub open spec fn pow256(n: nat) -> nat
    decreases n,
{
    if n == 0 {
        1
    } else {
        256 * pow256((n - 1) as nat)
    }
}

/// The `n` low-order bytes of `v`, least significant first.
pub open spec fn le_bytes(v: nat, n: nat) -> Seq<u8>
    decreases n,
{
    if n == 0 {
        seq![]
    } else {
        seq![(v % 256) as u8] + le_bytes(v / 256, (n - 1) as nat)
    }
}

/// The number whose little-endian bytes are `s`.
pub open spec fn le_value(s: Seq<u8>) -> nat
    decreases s.len(),
{
    if s.len() == 0 {
        0
    } else {
        s[0] as nat + 256 * le_value(s.drop_first())
    }
}

pub proof fn lemma_le_bytes_len(v: nat, n: nat)
    ensures
        le_bytes(v, n).len() == n,
    decreases n,
{
    if n > 0 {
        lemma_le_bytes_len(v / 256, (n - 1) as nat);
    }
}

/// Reading back `n` written bytes gives the value, when it fits.
pub proof fn lemma_le_roundtrip(v: nat, n: nat)
    requires
        v < pow256(n),
    ensures
        le_value(le_bytes(v, n)) == v,
    decreases n,
{
    if n > 0 {
        lemma_le_roundtrip(v / 256, (n - 1) as nat);
        lemma_le_bytes_len(v / 256, (n - 1) as nat);
        assert(le_bytes(v, n).drop_first() =~= le_bytes(v / 256, (n - 1) as nat));
    }
}

/// A little-endian value is below `256^len`.
pub proof fn lemma_le_value_bound(s: Seq<u8>)
    ensures
        le_value(s) < pow256(s.len()),
    decreases s.len(),
{
    if s.len() > 0 {
        lemma_le_value_bound(s.drop_first());
    }
}

pub proof fn lemma_pow256_mono(a: nat, b: nat)
    requires
        a <= b,
    ensures
        pow256(a) <= pow256(b),
    decreases b,
{
    if a < b {
        lemma_pow256_mono(a, (b - 1) as nat);
    }
}

pub proof fn lemma_pow256_values()
    ensures
        pow256(2) == 0x1_0000,
        pow256(4) == 0x1_0000_0000,
        pow256(8) == 0x1_0000_0000_0000_0000,
{
    reveal_with_fuel(pow256, 9);
}

/// Appends the `n` low-order bytes of `v`, least significant first.
pub fn push_le(out: &mut Vec<u8>, v: u64, n: usize)
    requires
        n <= 8,
    ensures
        final(out)@ == old(out)@ + le_bytes(v as nat, n as nat),
{
    let mut k: usize = 0;
    let mut rest = v;
    let ghost start = out@;
    proof {
        lemma_le_bytes_len(v as nat, n as nat);
    }
    while k < n
        invariant
            k <= n,
            out@ + le_bytes(rest as nat, (n - k) as nat) == start + le_bytes(v as nat, n as nat),
        decreases n - k,
    {
        let ghost before = out@;
        out.push((rest % 256) as u8);
        assert(le_bytes(rest as nat, (n - k) as nat) =~= seq![(rest % 256) as u8] + le_bytes(
            (rest / 256) as nat,
            (n - k - 1) as nat,
        ));
        assert(out@ + le_bytes((rest / 256) as nat, (n - k - 1) as nat) =~= before + le_bytes(
            rest as nat,
            (n - k) as nat,
        ));
        rest = rest / 256;
        k = k + 1;
    }
    assert(le_bytes(rest as nat, 0) =~= Seq::<u8>::empty());
    assert(out@ =~= out@ + le_bytes(rest as nat, 0));
}

/// The value of the `n` bytes `b[at..at + n]` read little-endian.
pub fn read_le(b: &[u8], at: usize, n: usize) -> (r: u64)
    requires
        n <= 8,
        at + n <= b@.len(),
    ensures
        r as nat == le_value(b@.subrange(at as int, at + n)),
{
    let mut acc: u64 = 0;
    let mut k: usize = n;
    proof {
        lemma_pow256_values();
        lemma_pow256_mono(n as nat, 8);
    }
    assert(b@.subrange(at + n, at + n) =~= Seq::<u8>::empty());
    while k > 0
        invariant
            k <= n <= 8,
            at + n <= b@.len(),
            b@.len() == b.len(),
            acc as nat == le_value(b@.subrange(at + k, at + n)),
            pow256(8) == 0x1_0000_0000_0000_0000,
        decreases k,
    {
        let ghost tail = b@.subrange(at + k, at + n);
        proof {
            lemma_le_value_bound(tail);
            lemma_pow256_mono((n - k) as nat, 7);
            assert(pow256(8) == 256 * pow256(7));
        }
        let byte = b[at + k - 1];
        acc = (byte as u64) + 256 * acc;
        assert(b@.subrange(at + k - 1, at + n).drop_first() =~= tail);
        k = k - 1;
    }
    acc
}

} // verus!

verus! {

// ---------------------------------------------------------------------------
// UTF-16
// ---------------------------------------------------------------------------

/// UTF-16 code units of one character (`char::encode_utf16`): the value
/// itself below `0x10000`, else a surrogate pair.
pub open spec fn utf16_of_char(c: char) -> Seq<u16> {
    let v = c as u32;
    if v < 0x10000 {
        seq![v as u16]
    } else {
        let w = (v - 0x10000) as int;
        seq![(0xD800 + w / 1024) as u16, (0xDC00 + w % 1024) as u16]
    }
}

/// UTF-16 code units of a character sequence (`str::encode_utf16`).
pub open spec fn utf16(chars: Seq<char>) -> Seq<u16>
    decreases chars.len(),
{
    if chars.len() == 0 {
        seq![]
    } else {
        utf16_of_char(chars[0]) + utf16(chars.drop_first())
    }
}

/// Decoding UTF-16 (`String::from_utf16`): `None` when the units hold an
/// unpaired surrogate.
pub open spec fn utf16_decode(units: Seq<u16>) -> Option<Seq<char>>
    decreases units.len(),
{
    if units.len() == 0 {
        Some(seq![])
    } else {
        let u = units[0];
        if u < 0xD800 || u > 0xDFFF {
            match utf16_decode(units.drop_first()) {
                Some(rest) => Some(seq![(u as u32) as char] + rest),
                None => None,
            }
        } else if u <= 0xDBFF && units.len() >= 2 && 0xDC00 <= units[1] <= 0xDFFF {
            let cp = 0x10000 + (u - 0xD800) * 1024 + (units[1] - 0xDC00);
            match utf16_decode(units.skip(2)) {
                Some(rest) => Some(seq![(cp as u32) as char] + rest),
                None => None,
            }
        } else {
            None
        }
    }
}

pub proof fn lemma_utf16_concat(a: Seq<char>, b: Seq<char>)
    ensures
        utf16(a + b) == utf16(a) + utf16(b),
    decreases a.len(),
{
    if a.len() == 0 {
        assert(a + b =~= b);
    } else {
        lemma_utf16_concat(a.drop_first(), b);
        assert((a + b).drop_first() =~= a.drop_first() + b);
        assert(utf16(a + b) =~= utf16(a) + utf16(b));
    }
}

/// Decoding the UTF-16 of a character sequence gives it back.
pub proof fn lemma_utf16_roundtrip(chars: Seq<char>)
    ensures
        utf16_decode(utf16(chars)) == Some(chars),
    decreases chars.len(),
{
    if chars.len() > 0 {
        let c = chars[0];
        let v = c as u32;
        vstd::utf8::char_is_scalar(c);
        vstd::utf8::char_u32_cast(c, v);
        lemma_utf16_roundtrip(chars.drop_first());
        let rest = utf16(chars.drop_first());
        let all = utf16(chars);
        if v < 0x10000 {
            assert(all == seq![v as u16] + rest);
            assert(all.drop_first() =~= rest);
            assert(((v as u16) as u32) == v);
        } else {
            let w = (v - 0x10000) as int;
            let hi = (0xD800 + w / 1024) as u16;
            let lo = (0xDC00 + w % 1024) as u16;
            assert(all == seq![hi, lo] + rest);
            assert(all.skip(2) =~= rest);
            assert(0x10000 + (hi - 0xD800) * 1024 + (lo - 0xDC00) == v);
        }
        assert(seq![c] + chars.drop_first() =~= chars);
    }
}

/// UTF-16 code units of `s`.
pub fn utf16_units(s: &[char]) -> (r: Vec<u16>)
    ensures
        r@ == utf16(s@),
{
    let mut r: Vec<u16> = Vec::new();
    let mut i: usize = 0;
    assert(s@.take(0) =~= Seq::<char>::empty());
    while i < s.len()
        invariant
            i <= s@.len(),
            r@ == utf16(s@.take(i as int)),
        decreases s@.len() - i,
    {
        let c = s[i];
        let v = c as u32;
        let ghost before = r@;
        if v < 0x10000 {
            r.push(v as u16);
        } else {
            let w = v - 0x10000;
            r.push((0xD800 + w / 1024) as u16);
            r.push((0xDC00 + w % 1024) as u16);
        }
        proof {
            lemma_utf16_concat(s@.take(i as int), seq![c]);
            assert(s@.take(i + 1) =~= s@.take(i as int) + seq![c]);
            assert(seq![c].drop_first() =~= Seq::<char>::empty());
            reveal_with_fuel(utf16, 2);
            assert(utf16(seq![c]) =~= utf16_of_char(c));
            assert(r@ =~= before + utf16_of_char(c));
        }
        i = i + 1;
    }
    assert(s@.take(s@.len() as int) =~= s@);
    r
}

/// `String::from_utf16`: the decoded string, or `None` when the units hold an
/// unpaired surrogate.
#[verifier::external_body]
fn string_from_utf16(units: &[u16]) -> (r: Option<String>)
    ensures
        r matches Some(s) ==> utf16_decode(units@) == Some(s@),
        r is None ==> utf16_decode(units@) is None,
{
    String::from_utf16(units).ok()
}

/// What `String::from_utf8_lossy` decodes `bytes` to.
pub uninterp spec fn utf8_lossy(bytes: Seq<u8>) -> Seq<char>;

/// Lossy UTF-8 decoding: valid UTF-8 decodes exactly; otherwise the result
/// of `String::from_utf8_lossy` (invalid sequences become U+FFFD).
pub open spec fn lossy_decode(bytes: Seq<u8>) -> Seq<char> {
    if vstd::utf8::valid_utf8(bytes) {
        vstd::utf8::decode_utf8(bytes)
    } else {
        utf8_lossy(bytes)
    }
}

/// `String::from_utf8_lossy`: valid UTF-8 decodes exactly (the documented
/// behaviour); on invalid input the result, in which each invalid sequence
/// becomes U+FFFD, is named by `utf8_lossy` rather than described.
#[verifier::external_body]
fn string_from_utf8_lossy(bytes: &[u8]) -> (r: String)
    ensures
        vstd::utf8::valid_utf8(bytes@) ==> r@ == vstd::utf8::decode_utf8(bytes@),
        !vstd::utf8::valid_utf8(bytes@) ==> r@ == utf8_lossy(bytes@),
{
    String::from_utf8_lossy(bytes).into_owned()
}

} // verus!

verus! {

// ---------------------------------------------------------------------------
// values and records
// ---------------------------------------------------------------------------

/// One XDATA value. Reals and coordinates are held as the bit patterns of
/// their IEEE-754 doubles.
pub enum XValue {
    /// String (code 0).
    Text(String),
    /// Control string `{` / `}` (code 2).
    ControlString(String),
    /// Layer name (written like a string, code 0).
    LayerName(String),
    /// Binary chunk (code 4).
    BinaryData(Vec<u8>),
    /// Database handle (code 5).
    Handle(u64),
    /// 3-D point (code 10).
    Point3D(u64, u64, u64),
    /// 3-D position (code 11).
    Position3D(u64, u64, u64),
    /// 3-D displacement (code 12).
    Displacement3D(u64, u64, u64),
    /// 3-D direction (code 13).
    Direction3D(u64, u64, u64),
    /// Real (code 40).
    Real(u64),
    /// Distance (code 41).
    Distance(u64),
    /// Scale factor (code 42).
    ScaleFactor(u64),
    /// 16-bit integer (code 70).
    Integer16(i16),
    /// 32-bit integer (code 71).
    Integer32(i32),
}

/// Mathematical content of an `XValue`.
pub enum XValueModel {
    Text(Seq<char>),
    ControlString(Seq<char>),
    LayerName(Seq<char>),
    BinaryData(Seq<u8>),
    Handle(u64),
    Point3D(u64, u64, u64),
    Position3D(u64, u64, u64),
    Displacement3D(u64, u64, u64),
    Direction3D(u64, u64, u64),
    Real(u64),
    Distance(u64),
    ScaleFactor(u64),
    Integer16(i16),
    Integer32(i32),
}

impl View for XValue {
    type V = XValueModel;

    open spec fn view(&self) -> XValueModel {
        match self {
            XValue::Text(s) => XValueModel::Text(s@),
            XValue::ControlString(s) => XValueModel::ControlString(s@),
            XValue::LayerName(s) => XValueModel::LayerName(s@),
            XValue::BinaryData(d) => XValueModel::BinaryData(d@),
            XValue::Handle(h) => XValueModel::Handle(*h),
            XValue::Point3D(x, y, z) => XValueModel::Point3D(*x, *y, *z),
            XValue::Position3D(x, y, z) => XValueModel::Position3D(*x, *y, *z),
            XValue::Displacement3D(x, y, z) => XValueModel::Displacement3D(*x, *y, *z),
            XValue::Direction3D(x, y, z) => XValueModel::Direction3D(*x, *y, *z),
            XValue::Real(v) => XValueModel::Real(*v),
            XValue::Distance(v) => XValueModel::Distance(*v),
            XValue::ScaleFactor(v) => XValueModel::ScaleFactor(*v),
            XValue::Integer16(v) => XValueModel::Integer16(*v),
            XValue::Integer32(v) => XValueModel::Integer32(*v),
        }
    }
}

/// The XDATA of one application on one entity.
pub struct XRecord {
    pub application_name: String,
    pub values: Vec<XValue>,
}

/// Mathematical content of an `XRecord`.
pub struct XRecordModel {
    pub application_name: Seq<char>,
    pub values: Seq<XValueModel>,
}

/// The models of a sequence of values.
pub open spec fn value_models(v: Seq<XValue>) -> Seq<XValueModel> {
    v.map_values(|x: XValue| x@)
}

impl View for XRecord {
    type V = XRecordModel;

    open spec fn view(&self) -> XRecordModel {
        XRecordModel { application_name: self.application_name@, values: value_models(self.values@) }
    }
}

/// Little-endian bytes of a sequence of 16-bit units.
pub open spec fn units_le(u: Seq<u16>) -> Seq<u8>
    decreases u.len(),
{
    if u.len() == 0 {
        seq![]
    } else {
        le_bytes(u[0] as nat, 2) + units_le(u.drop_first())
    }
}

/// `min(n, 255)`.
pub open spec fn cap255(n: nat) -> nat {
    if n < 255 {
        n
    } else {
        255
    }
}

/// A string value: code 0 then, wide, the UTF-16 unit count (as a `u16`) and
/// the units; narrow, at most 255 UTF-8 bytes behind their count and a zero
/// code page.
pub open spec fn string_bytes(s: Seq<char>, wide: bool) -> Seq<u8> {
    if wide {
        let u = utf16(s);
        seq![0u8] + le_bytes(u.len() % 0x10000, 2) + units_le(u)
    } else {
        let b = vstd::utf8::encode_utf8(s);
        let n = cap255(b.len());
        seq![0u8, n as u8, 0u8, 0u8] + b.take(n as int)
    }
}

/// Code byte followed by three 8-byte coordinates.
pub open spec fn xyz_bytes(code: u8, x: u64, y: u64, z: u64) -> Seq<u8> {
    seq![code] + le_bytes(x as nat, 8) + le_bytes(y as nat, 8) + le_bytes(z as nat, 8)
}

/// The bytes of one value.
pub open spec fn value_bytes(v: XValueModel, wide: bool) -> Seq<u8> {
    match v {
        XValueModel::Text(s) => string_bytes(s, wide),
        XValueModel::ControlString(s) => seq![2u8, if s =~= seq!['}'] { 1u8 } else { 0u8 }],
        XValueModel::LayerName(s) => string_bytes(s, wide),
        XValueModel::BinaryData(d) => {
            let n = cap255(d.len());
            seq![4u8, n as u8] + d.take(n as int)
        },
        XValueModel::Handle(h) => seq![5u8] + le_bytes(h as nat, 8),
        XValueModel::Point3D(x, y, z) => xyz_bytes(10, x, y, z),
        XValueModel::Position3D(x, y, z) => xyz_bytes(11, x, y, z),
        XValueModel::Displacement3D(x, y, z) => xyz_bytes(12, x, y, z),
        XValueModel::Direction3D(x, y, z) => xyz_bytes(13, x, y, z),
        XValueModel::Real(v) => seq![40u8] + le_bytes(v as nat, 8),
        XValueModel::Distance(v) => seq![41u8] + le_bytes(v as nat, 8),
        XValueModel::ScaleFactor(v) => seq![42u8] + le_bytes(v as nat, 8),
        XValueModel::Integer16(v) => seq![70u8] + le_bytes((v as u16) as nat, 2),
        XValueModel::Integer32(v) => seq![71u8] + le_bytes((v as u32) as nat, 4),
    }
}

/// The bytes of a sequence of values, in order.
pub open spec fn values_bytes(vs: Seq<XValueModel>, wide: bool) -> Seq<u8>
    decreases vs.len(),
{
    if vs.len() == 0 {
        seq![]
    } else {
        values_bytes(vs.drop_last(), wide) + value_bytes(vs.last(), wide)
    }
}

} // verus!

verus! {

pub proof fn lemma_units_le_push(u: Seq<u16>, x: u16)
    ensures
        units_le(u.push(x)) == units_le(u) + le_bytes(x as nat, 2),
    decreases u.len(),
{
    if u.len() == 0 {
        assert(u.push(x).drop_first() =~= Seq::<u16>::empty());
        assert(units_le(Seq::<u16>::empty()) =~= Seq::<u8>::empty());
        assert(units_le(u.push(x)) =~= le_bytes(x as nat, 2) + units_le(Seq::<u16>::empty()));
        assert(units_le(u) =~= Seq::<u8>::empty());
        assert(units_le(u.push(x)) =~= units_le(u) + le_bytes(x as nat, 2));
    } else {
        lemma_units_le_push(u.drop_first(), x);
        assert(u.push(x).drop_first() =~= u.drop_first().push(x));
        assert(units_le(u.push(x)) =~= units_le(u) + le_bytes(x as nat, 2));
    }
}

/// Appends `s[from..to]`.
fn extend_bytes(out: &mut Vec<u8>, s: &[u8], from: usize, to: usize)
    requires
        from <= to <= s@.len(),
    ensures
        final(out)@ == old(out)@ + s@.subrange(from as int, to as int),
{
    let mut i = from;
    let ghost start = out@;
    while i < to
        invariant
            from <= i <= to <= s@.len(),
            out@ == start + s@.subrange(from as int, i as int),
        decreases to - i,
    {
        out.push(s[i]);
        assert(s@.subrange(from as int, i + 1) =~= s@.subrange(from as int, i as int).push(
            s@[i as int],
        ));
        assert(out@ =~= start + s@.subrange(from as int, i + 1));
        i = i + 1;
    }
}

/// The bytes of a string value (see [`string_bytes`]).
pub fn encode_string(s: &str, wide: bool) -> (b: Vec<u8>)
    ensures
        b@ == string_bytes(s@, wide),
{
    let mut b: Vec<u8> = Vec::new();
    b.push(0);
    if wide {
        let chars = chars_of(s);
        let units = utf16_units(chars.as_slice());
        let count = units.len() % 0x10000;
        push_le(&mut b, count as u64, 2);
        let ghost head = b@;
        let mut k: usize = 0;
        assert(units@.take(0) =~= Seq::<u16>::empty());
        assert(head =~= head + units_le(units@.take(0)));
        while k < units.len()
            invariant
                k <= units@.len(),
                b@ == head + units_le(units@.take(k as int)),
            decreases units@.len() - k,
        {
            push_le(&mut b, units[k] as u64, 2);
            proof {
                lemma_units_le_push(units@.take(k as int), units@[k as int]);
                assert(units@.take(k + 1) =~= units@.take(k as int).push(units@[k as int]));
            }
            k = k + 1;
        }
        assert(units@.take(units@.len() as int) =~= units@);
        assert(b@ =~= string_bytes(s@, wide));
    } else {
        let bytes = s.as_bytes();
        let n = if bytes.len() < 255 {
            bytes.len()
        } else {
            255
        };
        b.push(n as u8);
        b.push(0);
        b.push(0);
        extend_bytes(&mut b, bytes, 0, n);
        assert(b@ =~= string_bytes(s@, wide));
    }
    b
}

} // verus!

verus! {

/// Whether `s` is exactly `}`.
fn is_closing_brace(s: &String) -> (r: bool)
    ensures
        r == (s@ =~= seq!['}']),
{
    let c = chars_of(s.as_str());
    let r = c.len() == 1 && c[0] == '}';
    proof {
        if c@.len() == 1 && c@[0] == '}' {
            assert(c@ =~= seq!['}']);
        }
        if s@ =~= seq!['}'] {
            assert(c@[0] == '}');
        }
    }
    r
}

/// The bytes of one value (see [`value_bytes`]).
pub fn encode_value(v: &XValue, wide: bool) -> (b: Vec<u8>)
    ensures
        b@ == value_bytes(v@, wide),
{
    match v {
        XValue::Text(s) => encode_string(s.as_str(), wide),
        XValue::ControlString(s) => {
            let mut b: Vec<u8> = Vec::new();
            b.push(2);
            b.push(
                if is_closing_brace(s) {
                    1
                } else {
                    0
                },
            );
            assert(b@ =~= value_bytes(v@, wide));
            b
        },
        XValue::LayerName(s) => encode_string(s.as_str(), wide),
        XValue::BinaryData(data) => {
            let n = if data.len() < 255 {
                data.len()
            } else {
                255
            };
            let mut b: Vec<u8> = Vec::new();
            b.push(4);
            b.push(n as u8);
            extend_bytes(&mut b, data.as_slice(), 0, n);
            assert(b@ =~= value_bytes(v@, wide));
            b
        },
        XValue::Handle(h) => {
            let mut b: Vec<u8> = Vec::new();
            b.push(5);
            push_le(&mut b, *h, 8);
            b
        },
        XValue::Point3D(x, y, z) => encode_xyz_bytes(10, *x, *y, *z),
        XValue::Position3D(x, y, z) => encode_xyz_bytes(11, *x, *y, *z),
        XValue::Displacement3D(x, y, z) => encode_xyz_bytes(12, *x, *y, *z),
        XValue::Direction3D(x, y, z) => encode_xyz_bytes(13, *x, *y, *z),
        XValue::Real(x) => encode_u64_bytes(40, *x),
        XValue::Distance(x) => encode_u64_bytes(41, *x),
        XValue::ScaleFactor(x) => encode_u64_bytes(42, *x),
        XValue::Integer16(x) => {
            let mut b: Vec<u8> = Vec::new();
            b.push(70);
            push_le(&mut b, (*x as u16) as u64, 2);
            b
        },
        XValue::Integer32(x) => {
            let mut b: Vec<u8> = Vec::new();
            b.push(71);
            push_le(&mut b, (*x as u32) as u64, 4);
            b
        },
    }
}

fn encode_xyz_bytes(code: u8, x: u64, y: u64, z: u64) -> (b: Vec<u8>)
    ensures
        b@ == xyz_bytes(code, x, y, z),
{
    let mut b: Vec<u8> = Vec::new();
    b.push(code);
    push_le(&mut b, x, 8);
    push_le(&mut b, y, 8);
    push_le(&mut b, z, 8);
    b
}

fn encode_u64_bytes(code: u8, x: u64) -> (b: Vec<u8>)
    ensures
        b@ == seq![code] + le_bytes(x as nat, 8),
{
    let mut b: Vec<u8> = Vec::new();
    b.push(code);
    push_le(&mut b, x, 8);
    b
}

/// The bytes of a record: its values' bytes, in order.
pub fn encode_record(record: &XRecord, wide: bool) -> (b: Vec<u8>)
    ensures
        b@ == values_bytes(record@.values, wide),
{
    let mut b: Vec<u8> = Vec::new();
    let mut i: usize = 0;
    let ghost vs = record@.values;
    assert(vs.take(0) =~= Seq::<XValueModel>::empty());
    while i < record.values.len()
        invariant
            vs == record@.values,
            vs.len() == record.values@.len(),
            i <= vs.len(),
            b@ == values_bytes(vs.take(i as int), wide),
        decreases vs.len() - i,
    {
        let part = encode_value(&record.values[i], wide);
        let ghost before = b@;
        let mut k: usize = 0;
        while k < part.len()
            invariant
                k <= part@.len(),
                b@ == before + part@.take(k as int),
            decreases part@.len() - k,
        {
            b.push(part[k]);
            assert(part@.take(k + 1) =~= part@.take(k as int).push(part@[k as int]));
            assert(b@ =~= before + part@.take(k + 1));
            k = k + 1;
        }
        assert(part@.take(part@.len() as int) =~= part@);
        assert(vs.take(i + 1).drop_last() =~= vs.take(i as int));
        assert(vs[i as int] == record.values@[i as int]@);
        i = i + 1;
    }
    assert(vs.take(vs.len() as int) =~= vs);
    b
}

} // verus!

verus! {

/// The `n` little-endian 16-bit units starting at byte `q`.
pub open spec fn units_at(b: Seq<u8>, q: int, n: nat) -> Seq<u16> {
    Seq::new(n, |k: int| le_value(b.subrange(q + 2 * k, q + 2 * k + 2)) as u16)
}

/// A string whose length field is at byte `p` (just after the code byte):
/// the characters and the position after it, or `None` when the bytes run
/// out or (wide) the units are not valid UTF-16. Narrow bytes are decoded
/// lossily.
pub open spec fn string_at(b: Seq<u8>, p: int, wide: bool) -> Option<(Seq<char>, int)> {
    if wide {
        if p < 0 || p + 2 > b.len() {
            None
        } else {
            let n = le_value(b.subrange(p, p + 2));
            let q = p + 2;
            if q + 2 * n > b.len() {
                None
            } else {
                match utf16_decode(units_at(b, q, n)) {
                    Some(cs) => Some((cs, q + 2 * n)),
                    None => None,
                }
            }
        }
    } else {
        if p < 0 || p >= b.len() {
            None
        } else {
            let n = b[p] as int;
            let q = p + 3;
            if q + n > b.len() {
                None
            } else {
                Some((lossy_decode(b.subrange(q, q + n)), q + n))
            }
        }
    }
}

/// Eight little-endian bytes at `p` as a `u64`.
pub open spec fn u64_at(b: Seq<u8>, p: int) -> u64 {
    le_value(b.subrange(p, p + 8)) as u64
}


/// Where decoding a string at `p` leaves the cursor when it fails (see
/// [`string_at`]): wide, after the length and every whole code unit there is
/// room for (or after all of them, when they do not decode); narrow, after the
/// length byte and code page, or at `p` when not even the length byte is there.
pub open spec fn string_stop(b: Seq<u8>, p: int, wide: bool) -> int {
    if wide {
        if p < 0 || p + 2 > b.len() {
            p
        } else {
            let n = le_value(b.subrange(p, p + 2));
            let q = p + 2;
            if q + 2 * n > b.len() {
                q + 2 * ((b.len() - q) / 2)
            } else {
                q + 2 * n
            }
        }
    } else {
        if p < 0 || p >= b.len() {
            p
        } else {
            p + 3
        }
    }
}

/// Where decoding a value at `i` leaves the cursor when it fails (see
/// [`value_at`]): after the code and whatever the value's layout let the
/// decoder take before it found the bytes missing.
pub open spec fn value_stop(b: Seq<u8>, i: int, wide: bool) -> int {
    if i < 0 || i >= b.len() {
        i
    } else {
        let code = b[i];
        let p = i + 1;
        if code == 0 || code == 3 {
            string_stop(b, p, wide)
        } else if code == 4 {
            if p >= b.len() {
                p
            } else {
                p + 1
            }
        } else if 10 <= code <= 13 {
            if p + 8 > b.len() {
                p
            } else if p + 16 > b.len() {
                p + 8
            } else {
                p + 16
            }
        } else {
            p
        }
    }
}
/// The value whose code byte is at `i`, and the position after it; `None`
/// for an unknown code or when the bytes run out.
pub open spec fn value_at(b: Seq<u8>, i: int, wide: bool) -> Option<(XValueModel, int)> {
    if i < 0 || i >= b.len() {
        None
    } else {
        let code = b[i];
        let p = i + 1;
        if code == 0 || code == 3 {
            match string_at(b, p, wide) {
                Some((s, j)) => Some(
                    (
                        if code == 0 {
                            XValueModel::Text(s)
                        } else {
                            XValueModel::LayerName(s)
                        },
                        j,
                    ),
                ),
                None => None,
            }
        } else if code == 2 {
            if p < b.len() {
                Some(
                    (
                        XValueModel::ControlString(
                            if b[p] == 1 {
                                seq!['}']
                            } else {
                                seq!['{']
                            },
                        ),
                        p + 1,
                    ),
                )
            } else {
                None
            }
        } else if code == 4 {
            if p < b.len() && p + 1 + b[p] <= b.len() {
                Some((XValueModel::BinaryData(b.subrange(p + 1, p + 1 + b[p])), p + 1 + b[p]))
            } else {
                None
            }
        } else if code == 5 {
            if p + 8 <= b.len() {
                Some((XValueModel::Handle(u64_at(b, p)), p + 8))
            } else {
                None
            }
        } else if 10 <= code <= 13 {
            if p + 24 <= b.len() {
                let (x, y, z) = (u64_at(b, p), u64_at(b, p + 8), u64_at(b, p + 16));
                Some(
                    (
                        if code == 11 {
                            XValueModel::Position3D(x, y, z)
                        } else if code == 12 {
                            XValueModel::Displacement3D(x, y, z)
                        } else if code == 13 {
                            XValueModel::Direction3D(x, y, z)
                        } else {
                            XValueModel::Point3D(x, y, z)
                        },
                        p + 24,
                    ),
                )
            } else {
                None
            }
        } else if 40 <= code <= 42 {
            if p + 8 <= b.len() {
                let v = u64_at(b, p);
                Some(
                    (
                        if code == 41 {
                            XValueModel::Distance(v)
                        } else if code == 42 {
                            XValueModel::ScaleFactor(v)
                        } else {
                            XValueModel::Real(v)
                        },
                        p + 8,
                    ),
                )
            } else {
                None
            }
        } else if code == 70 {
            if p + 2 <= b.len() {
                Some(
                    (XValueModel::Integer16((le_value(b.subrange(p, p + 2)) as u16) as i16), p + 2),
                )
            } else {
                None
            }
        } else if code == 71 {
            if p + 4 <= b.len() {
                Some(
                    (XValueModel::Integer32((le_value(b.subrange(p, p + 4)) as u32) as i32), p + 4),
                )
            } else {
                None
            }
        } else {
            None
        }
    }
}

/// The values read from byte `i` to the end: `None` as soon as one value
/// fails to decode.
pub open spec fn values_at(b: Seq<u8>, i: int, wide: bool) -> Option<Seq<XValueModel>>
    decreases b.len() - i,
{
    if i < 0 || i >= b.len() {
        Some(seq![])
    } else {
        match value_at(b, i, wide) {
            None => None,
            Some((v, j)) => if j <= i {
                None
            } else {
                match values_at(b, j, wide) {
                    Some(rest) => Some(seq![v] + rest),
                    None => None,
                }
            },
        }
    }
}

/// The record of application `app` held in `b`: `None` when a value fails
/// to decode or there is no value at all.
pub open spec fn record_at(app: Seq<char>, b: Seq<u8>, wide: bool) -> Option<XRecordModel> {
    match values_at(b, 0, wide) {
        Some(vs) => if vs.len() > 0 {
            Some(XRecordModel { application_name: app, values: vs })
        } else {
            None
        },
        None => None,
    }
}

/// A decoded value always lies after its code byte and inside the bytes.
pub proof fn lemma_value_at_advances(b: Seq<u8>, i: int, wide: bool)
    ensures
        value_at(b, i, wide) matches Some((v, j)) ==> i < j <= b.len(),
{
}

} // verus!

verus! {

/// Reads a string whose length field is at `*i`; on success `*i` moves past
/// it (see [`string_at`]).
pub fn decode_string(bytes: &[u8], i: &mut usize, wide: bool) -> (r: Option<String>)
    ensures
        r matches Some(s) ==> string_at(bytes@, *old(i) as int, wide) == Some(
            (s@, *final(i) as int),
        ),
        r is None ==> string_at(bytes@, *old(i) as int, wide) is None,
        r is None && string_stop(bytes@, *old(i) as int, wide) <= usize::MAX ==> *final(i)
            == string_stop(bytes@, *old(i) as int, wide),
{
    let len = bytes.len();
    let p = *i;
    if wide {
        if p > len || len - p < 2 {
            return None;
        }
        let n64 = read_le(bytes, p, 2);
        proof {
            lemma_le_value_bound(bytes@.subrange(p as int, p + 2));
            lemma_pow256_values();
        }
        let n = n64 as usize;
        assert(n as int == le_value(bytes@.subrange(p as int, p + 2)));
        let q = p + 2;
        if n > (len - q) / 2 {
            *i = q + 2 * ((len - q) / 2);
            return None;
        }
        let mut units: Vec<u16> = Vec::new();
        let mut k: usize = 0;
        while k < n
            invariant
                q + 2 * n <= bytes@.len(),
                len == bytes@.len(),
                k <= n,
                units@ == units_at(bytes@, q as int, n as nat).take(k as int),
            decreases n - k,
        {
            let u = read_le(bytes, q + 2 * k, 2);
            proof {
                lemma_le_value_bound(bytes@.subrange(q + 2 * k, q + 2 * k + 2));
                lemma_pow256_values();
            }
            units.push(u as u16);
            assert(units@ =~= units_at(bytes@, q as int, n as nat).take(k + 1));
            k = k + 1;
        }
        assert(units@ =~= units_at(bytes@, q as int, n as nat));
        *i = q + 2 * n;
        string_from_utf16(units.as_slice())
    } else {
        if p >= len {
            return None;
        }
        let n = bytes[p] as usize;
        if len - p < 3 || n > len - p - 3 {
            if p <= usize::MAX - 3 {
                *i = p + 3;
            }
            return None;
        }
        let q = p + 3;
        let s = string_from_utf8_lossy(slice_subrange(bytes, q, q + n));
        *i = q + n;
        Some(s)
    }
}

} // verus!

verus! {

/// Eight little-endian bytes at `p`.
fn read_u64(bytes: &[u8], p: usize) -> (r: u64)
    requires
        p + 8 <= bytes@.len(),
    ensures
        r == u64_at(bytes@, p as int),
{
    let r = read_le(bytes, p, 8);
    proof {
        lemma_le_value_bound(bytes@.subrange(p as int, p + 8));
        lemma_pow256_values();
    }
    r
}

/// Reads the value whose code byte is at `*i`; on success `*i` moves past
/// it (see [`value_at`]).
#[verifier::rlimit(40)]
pub fn decode_value(bytes: &[u8], i: &mut usize, wide: bool) -> (r: Option<XValue>)
    ensures
        r matches Some(v) ==> value_at(bytes@, *old(i) as int, wide) == Some(
            (v@, *final(i) as int),
        ),
        r is None ==> value_at(bytes@, *old(i) as int, wide) is None,
        r is None && value_stop(bytes@, *old(i) as int, wide) <= usize::MAX ==> *final(i)
            == value_stop(bytes@, *old(i) as int, wide),
{
    let len = bytes.len();
    let at = *i;
    if at >= len {
        return None;
    }
    let code = bytes[at];
    let p = at + 1;
    if code == 0 || code == 3 {
        let mut j = p;
        let got = decode_string(bytes, &mut j, wide);
        *i = j;
        match got {
            Some(s) => {
                if code == 0 {
                    Some(XValue::Text(s))
                } else {
                    Some(XValue::LayerName(s))
                }
            },
            None => None,
        }
    } else if code == 2 {
        if p >= len {
            *i = p;
            return None;
        }
        let brace: Vec<char> = if bytes[p] == 1 {
            vec!['}']
        } else {
            vec!['{']
        };
        assert(brace@ =~= (if bytes@[p as int] == 1 {
            seq!['}']
        } else {
            seq!['{']
        }));
        let s = crate::text::string_of_chars(brace.as_slice());
        *i = p + 1;
        Some(XValue::ControlString(s))
    } else if code == 4 {
        if p >= len {
            *i = p;
            return None;
        }
        let n = bytes[p] as usize;
        if n > len - p - 1 {
            *i = p + 1;
            return None;
        }
        let mut data: Vec<u8> = Vec::new();
        extend_bytes(&mut data, bytes, p + 1, p + 1 + n);
        *i = p + 1 + n;
        Some(XValue::BinaryData(data))
    } else if code == 5 {
        if len - p < 8 {
            *i = p;
            return None;
        }
        let h = read_u64(bytes, p);
        *i = p + 8;
        Some(XValue::Handle(h))
    } else if 10 <= code && code <= 13 {
        if len - p < 24 {
            *i = if len - p < 8 {
                p
            } else if len - p < 16 {
                p + 8
            } else {
                p + 16
            };
            return None;
        }
        let x = read_u64(bytes, p);
        let y = read_u64(bytes, p + 8);
        let z = read_u64(bytes, p + 16);
        *i = p + 24;
        if code == 11 {
            Some(XValue::Position3D(x, y, z))
        } else if code == 12 {
            Some(XValue::Displacement3D(x, y, z))
        } else if code == 13 {
            Some(XValue::Direction3D(x, y, z))
        } else {
            Some(XValue::Point3D(x, y, z))
        }
    } else if 40 <= code && code <= 42 {
        if len - p < 8 {
            *i = p;
            return None;
        }
        let v = read_u64(bytes, p);
        *i = p + 8;
        if code == 41 {
            Some(XValue::Distance(v))
        } else if code == 42 {
            Some(XValue::ScaleFactor(v))
        } else {
            Some(XValue::Real(v))
        }
    } else if code == 70 {
        if len - p < 2 {
            *i = p;
            return None;
        }
        let v = read_le(bytes, p, 2);
        proof {
            lemma_le_value_bound(bytes@.subrange(p as int, p + 2));
            lemma_pow256_values();
        }
        *i = p + 2;
        Some(XValue::Integer16((v as u16) as i16))
    } else if code == 71 {
        if len - p < 4 {
            *i = p;
            return None;
        }
        let v = read_le(bytes, p, 4);
        proof {
            lemma_le_value_bound(bytes@.subrange(p as int, p + 4));
            lemma_pow256_values();
        }
        *i = p + 4;
        Some(XValue::Integer32((v as u32) as i32))
    } else {
        *i = p;
        None
    }
}

/// Decodes the record of application `app_name` from raw bytes: `None` when
/// a value fails to decode or there is none (see [`record_at`]).
pub fn decode_record(app_name: &str, bytes: &[u8], wide: bool) -> (r: Option<XRecord>)
    ensures
        r matches Some(rec) ==> record_at(app_name@, bytes@, wide) == Some(rec@),
        r is None ==> record_at(app_name@, bytes@, wide) is None,
{
    let mut values: Vec<XValue> = Vec::new();
    let mut i: usize = 0;
    while i < bytes.len()
        invariant
            i <= bytes@.len(),
            values_at(bytes@, 0, wide) == match values_at(bytes@, i as int, wide) {
                Some(rest) => Some(value_models(values@) + rest),
                None => None,
            },
        decreases bytes@.len() - i,
    {
        let ghost old_i = i;
        let v = match decode_value(bytes, &mut i, wide) {
            Some(v) => v,
            None => return None,
        };
        proof {
            lemma_value_at_advances(bytes@, old_i as int, wide);
        }
        let ghost before = value_models(values@);
        values.push(v);
        assert(value_models(values@) =~= before.push(v@));
        proof {
            match values_at(bytes@, i as int, wide) {
                Some(rest) => {
                    assert(before + (seq![v@] + rest) =~= value_models(values@) + rest);
                },
                None => {},
            }
        }
    }
    assert(values_at(bytes@, i as int, wide) == Some(Seq::<XValueModel>::empty()));
    assert(value_models(values@) + Seq::<XValueModel>::empty() =~= value_models(values@));
    if values.len() == 0 {
        return None;
    }
    Some(XRecord { application_name: app_name.to_owned(), values })
}

} // verus!

verus! {

// ---------------------------------------------------------------------------
// round trip
// ---------------------------------------------------------------------------

/// A value the codec gives back unchanged: a string that fits its length
/// field (wide: at most 65535 UTF-16 units; narrow: at most 255 UTF-8
/// bytes), a control string `{` or `}`, binary data of at most 255 bytes, or
/// any number. (A layer name is written as a plain string and reads back as
/// one.)
pub open spec fn survives_codec(v: XValueModel, wide: bool) -> bool {
    match v {
        XValueModel::Text(s) => if wide {
            utf16(s).len() <= 0xFFFF
        } else {
            vstd::utf8::encode_utf8(s).len() <= 255
        },
        XValueModel::ControlString(s) => s =~= seq!['{'] || s =~= seq!['}'],
        XValueModel::LayerName(_) => false,
        XValueModel::BinaryData(d) => d.len() <= 255,
        _ => true,
    }
}

pub proof fn lemma_units_le(u: Seq<u16>)
    ensures
        units_le(u).len() == 2 * u.len(),
        forall|k: int|
            0 <= k < u.len() ==> #[trigger] units_le(u).subrange(2 * k, 2 * k + 2) =~= le_bytes(
                u[k] as nat,
                2,
            ),
    decreases u.len(),
{
    if u.len() > 0 {
        lemma_units_le(u.drop_first());
        lemma_le_bytes_len(u[0] as nat, 2);
        let rest = units_le(u.drop_first());
        let all = units_le(u);
        assert(all == le_bytes(u[0] as nat, 2) + rest);
        assert forall|k: int| 0 <= k < u.len() implies #[trigger] all.subrange(2 * k, 2 * k + 2)
            =~= le_bytes(u[k] as nat, 2) by {
            if k > 0 {
                assert(all.subrange(2 * k, 2 * k + 2) =~= rest.subrange(2 * (k - 1), 2 * (k - 1) + 2));
                assert(u[k] == u.drop_first()[k - 1]);
            }
        }
    }
}

/// The little-endian number stored at `b[p..p + n]` is the one written there.
pub proof fn lemma_le_at(b: Seq<u8>, p: int, v: nat, n: nat)
    requires
        0 <= p,
        p + n <= b.len(),
        b.subrange(p, p + n) =~= le_bytes(v, n),
        v < pow256(n),
    ensures
        le_value(b.subrange(p, p + n)) == v,
{
    lemma_le_roundtrip(v, n);
}

pub proof fn lemma_int_casts(a: i16, b: i32)
    ensures
        ((a as u16) as i16) == a,
        ((b as u32) as i32) == b,
{
    assert(((a as u16) as i16) == a) by (bit_vector);
    assert(((b as u32) as i32) == b) by (bit_vector);
}

/// A window of a window.
pub proof fn lemma_window(b: Seq<u8>, i: int, e: Seq<u8>, a: int, c: int)
    requires
        0 <= i,
        i + e.len() <= b.len(),
        b.subrange(i, i + e.len()) =~= e,
        0 <= a <= c <= e.len(),
    ensures
        b.subrange(i + a, i + c) =~= e.subrange(a, c),
{
    assert forall|k: int| 0 <= k < c - a implies b.subrange(i + a, i + c)[k] == e.subrange(a, c)[k] by {
        assert(b[i + a + k] == b.subrange(i, i + e.len())[a + k]);
    }
}

/// A value that survives the codec reads back from wherever its bytes lie.
#[verifier::rlimit(80)]
pub proof fn lemma_value_roundtrip(b: Seq<u8>, i: int, v: XValueModel, wide: bool)
    requires
        survives_codec(v, wide),
        0 <= i,
        i + value_bytes(v, wide).len() <= b.len(),
        b.subrange(i, i + value_bytes(v, wide).len()) =~= value_bytes(v, wide),
    ensures
        value_at(b, i, wide) == Some((v, i + value_bytes(v, wide).len())),
{
    let e = value_bytes(v, wide);
    let k = e.len() as int;
    assert(b[i] == b.subrange(i, i + k)[0]);
    lemma_pow256_values();
    lemma_le_bytes_len(0, 2);
    match v {
        XValueModel::Text(s) => {
            lemma_string_roundtrip(b, i, s, wide);
        },
        XValueModel::ControlString(s) => {
            assert(b[i + 1] == b.subrange(i, i + k)[1]);
        },
        XValueModel::LayerName(s) => {},
        XValueModel::BinaryData(d) => {
            assert(b[i + 1] == b.subrange(i, i + k)[1]);
            lemma_window(b, i, e, 2, k);
            assert(e.subrange(2, k) =~= d);
        },
        XValueModel::Handle(h) => {
            lemma_le_bytes_len(h as nat, 8);
            lemma_window(b, i, e, 1, 9);
            assert(e.subrange(1, 9) =~= le_bytes(h as nat, 8));
            lemma_le_at(b, i + 1, h as nat, 8);
        },
        XValueModel::Real(x) => {
            lemma_le_bytes_len(x as nat, 8);
            lemma_window(b, i, e, 1, 9);
            assert(e.subrange(1, 9) =~= le_bytes(x as nat, 8));
            lemma_le_at(b, i + 1, x as nat, 8);
        },
        XValueModel::Distance(x) => {
            lemma_le_bytes_len(x as nat, 8);
            lemma_window(b, i, e, 1, 9);
            assert(e.subrange(1, 9) =~= le_bytes(x as nat, 8));
            lemma_le_at(b, i + 1, x as nat, 8);
        },
        XValueModel::ScaleFactor(x) => {
            lemma_le_bytes_len(x as nat, 8);
            lemma_window(b, i, e, 1, 9);
            assert(e.subrange(1, 9) =~= le_bytes(x as nat, 8));
            lemma_le_at(b, i + 1, x as nat, 8);
        },
        XValueModel::Integer16(x) => {
            lemma_le_bytes_len((x as u16) as nat, 2);
            lemma_window(b, i, e, 1, 3);
            assert(e.subrange(1, 3) =~= le_bytes((x as u16) as nat, 2));
            lemma_le_at(b, i + 1, (x as u16) as nat, 2);
            lemma_int_casts(x, 0);
        },
        XValueModel::Integer32(x) => {
            lemma_le_bytes_len((x as u32) as nat, 4);
            lemma_window(b, i, e, 1, 5);
            assert(e.subrange(1, 5) =~= le_bytes((x as u32) as nat, 4));
            lemma_le_at(b, i + 1, (x as u32) as nat, 4);
            lemma_int_casts(0, x);
        },
        _ => {
            lemma_xyz_roundtrip(b, i, v);
        },
    }
}

/// Coordinate triples read back.
#[verifier::rlimit(40)]
pub proof fn lemma_xyz_roundtrip(b: Seq<u8>, i: int, v: XValueModel)
    requires
        v is Point3D || v is Position3D || v is Displacement3D || v is Direction3D,
        0 <= i,
        i + value_bytes(v, true).len() <= b.len(),
        b.subrange(i, i + value_bytes(v, true).len()) =~= value_bytes(v, true),
    ensures
        value_at(b, i, true) == Some((v, i + value_bytes(v, true).len())),
        value_at(b, i, false) == Some((v, i + value_bytes(v, true).len())),
{
    let (code, x, y, z) = match v {
        XValueModel::Point3D(x, y, z) => (10u8, x, y, z),
        XValueModel::Position3D(x, y, z) => (11u8, x, y, z),
        XValueModel::Displacement3D(x, y, z) => (12u8, x, y, z),
        XValueModel::Direction3D(x, y, z) => (13u8, x, y, z),
        _ => (0u8, 0u64, 0u64, 0u64),
    };
    let e = xyz_bytes(code, x, y, z);
    assert(value_bytes(v, true) == e);
    lemma_pow256_values();
    lemma_le_bytes_len(x as nat, 8);
    lemma_le_bytes_len(y as nat, 8);
    lemma_le_bytes_len(z as nat, 8);
    assert(b[i] == b.subrange(i, i + 25)[0]);
    lemma_window(b, i, e, 1, 9);
    lemma_window(b, i, e, 9, 17);
    lemma_window(b, i, e, 17, 25);
    assert(e.subrange(1, 9) =~= le_bytes(x as nat, 8));
    assert(e.subrange(9, 17) =~= le_bytes(y as nat, 8));
    assert(e.subrange(17, 25) =~= le_bytes(z as nat, 8));
    lemma_le_at(b, i + 1, x as nat, 8);
    lemma_le_at(b, i + 9, y as nat, 8);
    lemma_le_at(b, i + 17, z as nat, 8);
}

/// A string that fits its length field reads back.
#[verifier::rlimit(60)]
pub proof fn lemma_string_roundtrip(b: Seq<u8>, i: int, s: Seq<char>, wide: bool)
    requires
        survives_codec(XValueModel::Text(s), wide),
        0 <= i,
        i + string_bytes(s, wide).len() <= b.len(),
        b.subrange(i, i + string_bytes(s, wide).len()) =~= string_bytes(s, wide),
    ensures
        string_at(b, i + 1, wide) == Some((s, i + string_bytes(s, wide).len())),
{
    let e = string_bytes(s, wide);
    lemma_pow256_values();
    if wide {
        let u = utf16(s);
        let n = u.len();
        lemma_le_bytes_len(n % 0x10000, 2);
        lemma_units_le(u);
        assert(n % 0x10000 == n);
        assert(e == seq![0u8] + le_bytes(n, 2) + units_le(u));
        lemma_window(b, i, e, 1, 3);
        assert(e.subrange(1, 3) =~= le_bytes(n, 2));
        lemma_le_at(b, i + 1, n, 2);
        let q = i + 3;
        lemma_window(b, i, e, 3, 3 + 2 * n as int);
        assert(e.subrange(3, 3 + 2 * n as int) =~= units_le(u));
        assert(units_at(b, q, n) =~= u) by {
            assert forall|k: int| 0 <= k < n implies #[trigger] units_at(b, q, n)[k] == u[k] by {
                assert(b.subrange(q + 2 * k, q + 2 * k + 2) =~= units_le(u).subrange(2 * k, 2 * k + 2));
                lemma_le_bytes_len(u[k] as nat, 2);
                lemma_le_roundtrip(u[k] as nat, 2);
            }
        }
        lemma_utf16_roundtrip(s);
    } else {
        let c = vstd::utf8::encode_utf8(s);
        let n = c.len();
        assert(cap255(n) == n);
        assert(c.take(n as int) =~= c);
        assert(b[i + 1] == b.subrange(i, i + e.len())[1]);
        lemma_window(b, i, e, 4, 4 + n as int);
        assert(e.subrange(4, 4 + n as int) =~= c);
        vstd::utf8::encode_utf8_valid_utf8(s);
        vstd::utf8::encode_utf8_decode_utf8(s);
    }
}

} // verus!

verus! {

pub proof fn lemma_values_bytes_front(vs: Seq<XValueModel>, wide: bool)
    requires
        vs.len() > 0,
    ensures
        values_bytes(vs, wide) == value_bytes(vs[0], wide) + values_bytes(vs.drop_first(), wide),
    decreases vs.len(),
{
    if vs.len() == 1 {
        assert(vs.drop_last() =~= Seq::<XValueModel>::empty());
        assert(vs.drop_first() =~= Seq::<XValueModel>::empty());
        assert(values_bytes(vs, wide) =~= value_bytes(vs[0], wide) + values_bytes(
            vs.drop_first(),
            wide,
        ));
    } else {
        lemma_values_bytes_front(vs.drop_last(), wide);
        assert(vs.drop_last().drop_first() =~= vs.drop_first().drop_last());
        assert(vs.drop_first().last() == vs.last());
        assert(values_bytes(vs, wide) =~= value_bytes(vs[0], wide) + values_bytes(
            vs.drop_first(),
            wide,
        ));
    }
}

pub proof fn lemma_value_bytes_nonempty(v: XValueModel, wide: bool)
    ensures
        value_bytes(v, wide).len() >= 1,
{
}

/// Values that survive the codec read back from the end of a buffer.
pub proof fn lemma_values_roundtrip(b: Seq<u8>, i: int, vs: Seq<XValueModel>, wide: bool)
    requires
        forall|k: int| 0 <= k < vs.len() ==> survives_codec(#[trigger] vs[k], wide),
        0 <= i,
        i + values_bytes(vs, wide).len() == b.len(),
        b.subrange(i, b.len() as int) =~= values_bytes(vs, wide),
    ensures
        values_at(b, i, wide) == Some(vs),
    decreases vs.len(),
{
    if vs.len() == 0 {
        assert(values_bytes(vs, wide) =~= Seq::<u8>::empty());
    } else {
        lemma_values_bytes_front(vs, wide);
        let e = value_bytes(vs[0], wide);
        let k = e.len() as int;
        lemma_value_bytes_nonempty(vs[0], wide);
        let all = values_bytes(vs, wide);
        assert(b.subrange(i, i + k) =~= e) by {
            assert forall|j: int| 0 <= j < k implies b.subrange(i, i + k)[j] == e[j] by {
                assert(b[i + j] == b.subrange(i, b.len() as int)[j]);
                assert(all[j] == e[j]);
            }
        }
        lemma_value_roundtrip(b, i, vs[0], wide);
        let rest = vs.drop_first();
        assert forall|j: int| 0 <= j < rest.len() implies survives_codec(#[trigger] rest[j], wide) by {
            assert(rest[j] == vs[j + 1]);
        }
        assert(b.subrange(i + k, b.len() as int) =~= values_bytes(rest, wide)) by {
            assert forall|j: int| 0 <= j < b.len() - (i + k) implies b.subrange(
                i + k,
                b.len() as int,
            )[j] == values_bytes(rest, wide)[j] by {
                assert(b[i + k + j] == b.subrange(i, b.len() as int)[k + j]);
                assert(all[k + j] == values_bytes(rest, wide)[j]);
            }
        }
        lemma_values_roundtrip(b, i + k, rest, wide);
        assert(seq![vs[0]] + rest =~= vs);
    }
}

/// Round trip of the codec: encoding a record's values and decoding the
/// bytes under the same application name gives the record back, provided it
/// has a value and every value survives the codec (see [`survives_codec`]).
pub proof fn law_record_roundtrip(app: Seq<char>, vs: Seq<XValueModel>, wide: bool)
    requires
        vs.len() > 0,
        forall|k: int| 0 <= k < vs.len() ==> survives_codec(#[trigger] vs[k], wide),
    ensures
        record_at(app, values_bytes(vs, wide), wide) == Some(
            XRecordModel { application_name: app, values: vs },
        ),
{
    let b = values_bytes(vs, wide);
    assert(b.subrange(0, b.len() as int) =~= b);
    lemma_values_roundtrip(b, 0, vs, wide);
    lemma_values_bytes_front(vs, wide);
    lemma_value_bytes_nonempty(vs[0], wide);
}

} // verus!

verus! {

// ---------------------------------------------------------------------------
// Land Survey applications
// ---------------------------------------------------------------------------

/// XDATA application carrying survey metadata on a `Point` entity; record
/// values `[point number, description]`.
pub const XDATA_POINT: &'static str = "LANDSURVEY_POINT";

/// XDATA application tagging entities imported from a recognized plan;
/// record values `[source file name]`.
pub const XDATA_PLAN: &'static str = "LANDSURVEY_PLAN";

/// XDATA application tagging entities drawn for a surface / earthwork
/// result; record values `[surface name, kind]`.
pub const XDATA_SURFACE: &'static str = "LANDSURVEY_SURFACE";

/// One of the Land Survey application names.
pub open spec fn ls_app(name: Seq<char>) -> bool {
    name == XDATA_POINT@ || name == XDATA_PLAN@ || name == XDATA_SURFACE@
}

/// Whether `name` is one of the Land Survey applications.
pub fn is_ls_app(name: &str) -> (r: bool)
    ensures
        r == ls_app(name@),
{
    let n = chars_of(name);
    chars_equal(n.as_slice(), chars_of(XDATA_POINT).as_slice()) || chars_equal(
        n.as_slice(),
        chars_of(XDATA_PLAN).as_slice(),
    ) || chars_equal(n.as_slice(), chars_of(XDATA_SURFACE).as_slice())
}

} // verus!

verus! {

// ---------------------------------------------------------------------------
// per-entity commit / hydrate
// ---------------------------------------------------------------------------

/// A raw blob: the owning application's handle and the encoded bytes.
pub open spec fn blob_views(raw: Seq<(u64, Vec<u8>)>) -> Seq<(u64, Seq<u8>)> {
    raw.map_values(|e: (u64, Vec<u8>)| (e.0, e.1@))
}

/// The application table as `(name, handle)` entries.
pub open spec fn app_views(ids: Seq<(String, u64)>) -> Seq<(Seq<char>, u64)> {
    ids.map_values(|e: (String, u64)| (e.0@, e.1))
}

/// The models of a sequence of records.
pub open spec fn record_models(rs: Seq<XRecord>) -> Seq<XRecordModel> {
    rs.map_values(|r: XRecord| r@)
}

/// Handle registered for application `name` (the last table entry of that
/// name wins, as when the table is collected into a map).
pub open spec fn handle_of(ids: Seq<(Seq<char>, u64)>, name: Seq<char>) -> Option<u64>
    decreases ids.len(),
{
    if ids.len() == 0 {
        None
    } else if ids.last().0 == name {
        Some(ids.last().1)
    } else {
        handle_of(ids.drop_last(), name)
    }
}

/// Application owning handle `h` (the last table entry with that handle
/// wins).
pub open spec fn name_of(ids: Seq<(Seq<char>, u64)>, h: u64) -> Option<Seq<char>>
    decreases ids.len(),
{
    if ids.len() == 0 {
        None
    } else if ids.last().1 == h {
        Some(ids.last().0)
    } else {
        name_of(ids.drop_last(), h)
    }
}

/// `h` is the handle of one of the Land Survey applications.
pub open spec fn is_ls_handle(ids: Seq<(Seq<char>, u64)>, h: u64) -> bool {
    handle_of(ids, XDATA_POINT@) == Some(h) || handle_of(ids, XDATA_PLAN@) == Some(h)
        || handle_of(ids, XDATA_SURFACE@) == Some(h)
}

/// The blobs of other applications, in their order.
pub open spec fn foreign_blobs(raw: Seq<(u64, Seq<u8>)>, ids: Seq<(Seq<char>, u64)>) -> Seq<
    (u64, Seq<u8>),
>
    decreases raw.len(),
{
    if raw.len() == 0 {
        seq![]
    } else {
        let prev = foreign_blobs(raw.drop_last(), ids);
        if is_ls_handle(ids, raw.last().0) {
            prev
        } else {
            prev.push(raw.last())
        }
    }
}

/// Fresh blobs for the Land Survey records of an entity: each record of a
/// Land Survey application with a registered handle, in record order.
pub open spec fn ls_blobs(records: Seq<XRecordModel>, ids: Seq<(Seq<char>, u64)>, wide: bool) -> Seq<
    (u64, Seq<u8>),
>
    decreases records.len(),
{
    if records.len() == 0 {
        seq![]
    } else {
        let prev = ls_blobs(records.drop_last(), ids, wide);
        let r = records.last();
        if ls_app(r.application_name) && handle_of(ids, r.application_name) is Some {
            prev.push((handle_of(ids, r.application_name)->0, values_bytes(r.values, wide)))
        } else {
            prev
        }
    }
}

/// The raw blobs after a commit: the other applications' blobs kept as they
/// were, then the re-encoded Land Survey records.
pub open spec fn committed(
    raw: Seq<(u64, Seq<u8>)>,
    records: Seq<XRecordModel>,
    ids: Seq<(Seq<char>, u64)>,
    wide: bool,
) -> Seq<(u64, Seq<u8>)> {
    foreign_blobs(raw, ids) + ls_blobs(records, ids, wide)
}

/// Whether `name` is among `names`.
pub open spec fn has_name(names: Seq<Seq<char>>, name: Seq<char>) -> bool {
    exists|k: int| 0 <= k < names.len() && names[k] == name
}

/// Names of a sequence of records.
pub open spec fn names_of(rs: Seq<XRecordModel>) -> Seq<Seq<char>> {
    rs.map_values(|r: XRecordModel| r.application_name)
}

/// Records recovered from the first `n` raw blobs of an entity that already
/// has records named `existing`: a blob of a Land Survey application that
/// has no record yet (neither before nor recovered earlier) and that decodes
/// becomes a record; all other blobs are left alone.
pub open spec fn hydrated(
    raw: Seq<(u64, Seq<u8>)>,
    existing: Seq<Seq<char>>,
    ids: Seq<(Seq<char>, u64)>,
    wide: bool,
    n: int,
) -> Seq<XRecordModel>
    decreases n,
{
    if n <= 0 {
        seq![]
    } else {
        let prev = hydrated(raw, existing, ids, wide, n - 1);
        let (h, bytes) = raw[n - 1];
        match name_of(ids, h) {
            None => prev,
            Some(name) => if !ls_app(name) || has_name(existing + names_of(prev), name) {
                prev
            } else {
                match record_at(name, bytes, wide) {
                    Some(r) => prev.push(r),
                    None => prev,
                }
            },
        }
    }
}

} // verus!

verus! {

/// A copy of `b`.
fn copy_bytes(b: &Vec<u8>) -> (r: Vec<u8>)
    ensures
        r@ == b@,
{
    let mut r: Vec<u8> = Vec::new();
    extend_bytes(&mut r, b.as_slice(), 0, b.len());
    assert(b@.subrange(0, b@.len() as int) =~= b@);
    r
}

/// Handle registered for application `name` (see [`handle_of`]).
fn handle_lookup(ids: &Vec<(String, u64)>, name: &Vec<char>) -> (r: Option<u64>)
    ensures
        r == handle_of(app_views(ids@), name@),
{
    let ghost all = app_views(ids@);
    let mut i = ids.len();
    assert(all.take(i as int) =~= all);
    while i > 0
        invariant
            i <= ids@.len(),
            all == app_views(ids@),
            handle_of(all, name@) == handle_of(all.take(i as int), name@),
        decreases i,
    {
        assert(all.take(i as int).drop_last() =~= all.take(i - 1));
        let entry_name = chars_of(ids[i - 1].0.as_str());
        if chars_equal(entry_name.as_slice(), name.as_slice()) {
            return Some(ids[i - 1].1);
        }
        i = i - 1;
    }
    assert(all.take(0) =~= Seq::<(Seq<char>, u64)>::empty());
    None
}

/// Index of the table entry owning handle `h` (see [`name_of`]).
fn name_lookup(ids: &Vec<(String, u64)>, h: u64) -> (r: Option<usize>)
    ensures
        r matches Some(k) ==> k < ids@.len() && name_of(app_views(ids@), h) == Some(
            ids@[k as int].0@,
        ),
        r is None ==> name_of(app_views(ids@), h) is None,
{
    let ghost all = app_views(ids@);
    let mut i = ids.len();
    assert(all.take(i as int) =~= all);
    while i > 0
        invariant
            i <= ids@.len(),
            all == app_views(ids@),
            name_of(all, h) == name_of(all.take(i as int), h),
        decreases i,
    {
        assert(all.take(i as int).drop_last() =~= all.take(i - 1));
        if ids[i - 1].1 == h {
            return Some(i - 1);
        }
        i = i - 1;
    }
    assert(all.take(0) =~= Seq::<(Seq<char>, u64)>::empty());
    None
}

/// Whether `h` is the handle of a Land Survey application.
fn ls_handle_exec(ids: &Vec<(String, u64)>, h: u64) -> (r: bool)
    ensures
        r == is_ls_handle(app_views(ids@), h),
{
    let a = handle_lookup(ids, &chars_of(XDATA_POINT));
    let b = handle_lookup(ids, &chars_of(XDATA_PLAN));
    let c = handle_lookup(ids, &chars_of(XDATA_SURFACE));
    a == Some(h) || b == Some(h) || c == Some(h)
}

/// Whether two blob lists are equal.
fn same_blobs(a: &Vec<(u64, Vec<u8>)>, b: &Vec<(u64, Vec<u8>)>) -> (r: bool)
    ensures
        r == (blob_views(a@) == blob_views(b@)),
{
    if a.len() != b.len() {
        assert(blob_views(a@).len() != blob_views(b@).len());
        return false;
    }
    let mut i: usize = 0;
    while i < a.len()
        invariant
            a@.len() == b@.len(),
            i <= a@.len(),
            forall|k: int| 0 <= k < i ==> blob_views(a@)[k] == blob_views(b@)[k],
        decreases a@.len() - i,
    {
        let (ha, ba) = (&a[i].0, &a[i].1);
        let (hb, bb) = (&b[i].0, &b[i].1);
        let mut same = *ha == *hb && ba.len() == bb.len();
        if same {
            let mut k: usize = 0;
            while k < ba.len()
                invariant
                    ba@.len() == bb@.len(),
                    i < a@.len(),
                    a@.len() == b@.len(),
                    ba@ == a@[i as int].1@,
                    bb@ == b@[i as int].1@,
                    k <= ba@.len(),
                    forall|j: int| 0 <= j < k ==> ba@[j] == bb@[j],
                decreases ba@.len() - k,
            {
                if ba[k] != bb[k] {
                    assert(blob_views(a@)[i as int].1[k as int] != blob_views(b@)[i as int].1[k as int]);
                    return false;
                }
                k = k + 1;
            }
            assert(ba@ =~= bb@);
        }
        if !same {
            assert(blob_views(a@)[i as int] != blob_views(b@)[i as int]);
            return false;
        }
        i = i + 1;
    }
    assert(blob_views(a@) =~= blob_views(b@));
    true
}

/// Re-encode an entity's Land Survey records into its raw blobs (see
/// [`committed`]); the flag tells whether the blobs changed.
#[verifier::rlimit(40)]
pub fn commit_blobs(
    raw: &Vec<(u64, Vec<u8>)>,
    records: &Vec<XRecord>,
    app_ids: &Vec<(String, u64)>,
    wide: bool,
) -> (r: (Vec<(u64, Vec<u8>)>, bool))
    ensures
        blob_views(r.0@) == committed(
            blob_views(raw@),
            record_models(records@),
            app_views(app_ids@),
            wide,
        ),
        r.1 == (blob_views(raw@) != blob_views(r.0@)),
{
    let ghost ids = app_views(app_ids@);
    let ghost rv = blob_views(raw@);
    let mut next: Vec<(u64, Vec<u8>)> = Vec::new();
    let mut i: usize = 0;
    assert(rv.take(0) =~= Seq::<(u64, Seq<u8>)>::empty());
    while i < raw.len()
        invariant
            ids == app_views(app_ids@),
            rv == blob_views(raw@),
            i <= raw@.len(),
            blob_views(next@) == foreign_blobs(rv.take(i as int), ids),
        decreases raw@.len() - i,
    {
        assert(rv.take(i + 1).drop_last() =~= rv.take(i as int));
        assert(rv.take(i + 1).last() == rv[i as int]);
        let h = raw[i].0;
        if !ls_handle_exec(app_ids, h) {
            let bytes = copy_bytes(&raw[i].1);
            let ghost before = blob_views(next@);
            next.push((h, bytes));
            assert(blob_views(next@) =~= before.push(rv[i as int]));
        }
        i = i + 1;
    }
    assert(rv.take(rv.len() as int) =~= rv);
    let ghost fb = blob_views(next@);
    let ghost rm = record_models(records@);
    let mut j: usize = 0;
    assert(rm.take(0) =~= Seq::<XRecordModel>::empty());
    assert(fb =~= fb + ls_blobs(rm.take(0), ids, wide));
    while j < records.len()
        invariant
            ids == app_views(app_ids@),
            rm == record_models(records@),
            j <= records@.len(),
            blob_views(next@) == fb + ls_blobs(rm.take(j as int), ids, wide),
        decreases records@.len() - j,
    {
        assert(rm.take(j + 1).drop_last() =~= rm.take(j as int));
        assert(rm.take(j + 1).last() == records@[j as int]@);
        let record = &records[j];
        if is_ls_app(record.application_name.as_str()) {
            let name = chars_of(record.application_name.as_str());
            match handle_lookup(app_ids, &name) {
                Some(app_handle) => {
                    let bytes = encode_record(record, wide);
                    let ghost before = blob_views(next@);
                    next.push((app_handle, bytes));
                    assert(blob_views(next@) =~= before.push((app_handle, bytes@)));
                },
                None => {},
            }
        }
        j = j + 1;
    }
    assert(rm.take(rm.len() as int) =~= rm);
    let changed = !same_blobs(raw, &next);
    (next, changed)
}

} // verus!

verus! {

/// Character sequences of a sequence of strings.
pub open spec fn string_views(v: Seq<String>) -> Seq<Seq<char>> {
    v.map_values(|s: String| s@)
}

/// Whether `name` is the name of one of `existing` or of one of `found`.
fn name_taken(existing: &Vec<String>, found: &Vec<XRecord>, name: &Vec<char>) -> (r: bool)
    ensures
        r == has_name(string_views(existing@) + names_of(record_models(found@)), name@),
{
    let ghost all = string_views(existing@) + names_of(record_models(found@));
    let mut i: usize = 0;
    while i < existing.len()
        invariant
            all == string_views(existing@) + names_of(record_models(found@)),
            i <= existing@.len(),
            forall|k: int| 0 <= k < i ==> all[k] != name@,
        decreases existing@.len() - i,
    {
        let c = chars_of(existing[i].as_str());
        if chars_equal(c.as_slice(), name.as_slice()) {
            assert(all[i as int] == name@);
            return true;
        }
        i = i + 1;
    }
    let mut j: usize = 0;
    while j < found.len()
        invariant
            all == string_views(existing@) + names_of(record_models(found@)),
            j <= found@.len(),
            forall|k: int| 0 <= k < existing@.len() + j ==> all[k] != name@,
        decreases found@.len() - j,
    {
        let c = chars_of(found[j].application_name.as_str());
        if chars_equal(c.as_slice(), name.as_slice()) {
            assert(all[existing@.len() + j] == name@);
            return true;
        }
        j = j + 1;
    }
    false
}

/// Records to add to an entity after open, recovered from its raw blobs (see
/// [`hydrated`]); `existing` names the records it already has.
#[verifier::rlimit(40)]
pub fn hydrate_records(
    raw: &Vec<(u64, Vec<u8>)>,
    existing: &Vec<String>,
    app_ids: &Vec<(String, u64)>,
    wide: bool,
) -> (r: Vec<XRecord>)
    ensures
        record_models(r@) == hydrated(
            blob_views(raw@),
            string_views(existing@),
            app_views(app_ids@),
            wide,
            raw@.len() as int,
        ),
{
    let ghost rv = blob_views(raw@);
    let ghost ex = string_views(existing@);
    let ghost ids = app_views(app_ids@);
    let mut found: Vec<XRecord> = Vec::new();
    let mut i: usize = 0;
    while i < raw.len()
        invariant
            rv == blob_views(raw@),
            ex == string_views(existing@),
            ids == app_views(app_ids@),
            i <= raw@.len(),
            record_models(found@) == hydrated(rv, ex, ids, wide, i as int),
        decreases raw@.len() - i,
    {
        let h = raw[i].0;
        assert(rv[i as int] == (h, raw@[i as int].1@));
        match name_lookup(app_ids, h) {
            None => {},
            Some(k) => {
                let name = &app_ids[k].0;
                if is_ls_app(name.as_str()) {
                    let name_chars = chars_of(name.as_str());
                    if !name_taken(existing, &found, &name_chars) {
                        match decode_record(name.as_str(), raw[i].1.as_slice(), wide) {
                            Some(rec) => {
                                let ghost before = record_models(found@);
                                found.push(rec);
                                assert(record_models(found@) =~= before.push(rec@));
                            },
                            None => {},
                        }
                    }
                }
            },
        }
        i = i + 1;
    }
    found
}

} // verus!

verus! {

// ---------------------------------------------------------------------------
// laws of commit / hydrate
// ---------------------------------------------------------------------------

pub proof fn lemma_foreign_concat(a: Seq<(u64, Seq<u8>)>, b: Seq<(u64, Seq<u8>)>, ids: Seq<(Seq<char>, u64)>)
    ensures
        foreign_blobs(a + b, ids) == foreign_blobs(a, ids) + foreign_blobs(b, ids),
    decreases b.len(),
{
    if b.len() == 0 {
        assert(a + b =~= a);
        assert(foreign_blobs(a, ids) + foreign_blobs(b, ids) =~= foreign_blobs(a, ids));
    } else {
        lemma_foreign_concat(a, b.drop_last(), ids);
        assert((a + b).drop_last() =~= a + b.drop_last());
        assert((a + b).last() == b.last());
        if is_ls_handle(ids, b.last().0) {
        } else {
            assert(foreign_blobs(a + b, ids) =~= foreign_blobs(a, ids) + foreign_blobs(b, ids));
        }
    }
}

pub proof fn lemma_foreign_idempotent(raw: Seq<(u64, Seq<u8>)>, ids: Seq<(Seq<char>, u64)>)
    ensures
        foreign_blobs(foreign_blobs(raw, ids), ids) == foreign_blobs(raw, ids),
    decreases raw.len(),
{
    if raw.len() > 0 {
        lemma_foreign_idempotent(raw.drop_last(), ids);
        let prev = foreign_blobs(raw.drop_last(), ids);
        if !is_ls_handle(ids, raw.last().0) {
            assert(prev.push(raw.last()).drop_last() =~= prev);
        }
    }
}

/// The fresh Land Survey blobs all carry Land Survey handles.
pub proof fn lemma_ls_blobs_handles(records: Seq<XRecordModel>, ids: Seq<(Seq<char>, u64)>, wide: bool)
    ensures
        foreign_blobs(ls_blobs(records, ids, wide), ids) == Seq::<(u64, Seq<u8>)>::empty(),
    decreases records.len(),
{
    if records.len() > 0 {
        lemma_ls_blobs_handles(records.drop_last(), ids, wide);
        let prev = ls_blobs(records.drop_last(), ids, wide);
        let r = records.last();
        if ls_app(r.application_name) && handle_of(ids, r.application_name) is Some {
            let e = (handle_of(ids, r.application_name)->0, values_bytes(r.values, wide));
            assert(prev.push(e).drop_last() =~= prev);
            assert(is_ls_handle(ids, e.0));
        }
    }
}

/// Committing is idempotent: committing again with no edits leaves the raw
/// blobs exactly as the first commit left them (so the second commit reports
/// no change).
pub proof fn law_commit_idempotent(
    raw: Seq<(u64, Seq<u8>)>,
    records: Seq<XRecordModel>,
    ids: Seq<(Seq<char>, u64)>,
    wide: bool,
)
    ensures
        committed(committed(raw, records, ids, wide), records, ids, wide) == committed(
            raw,
            records,
            ids,
            wide,
        ),
{
    let f = foreign_blobs(raw, ids);
    let l = ls_blobs(records, ids, wide);
    lemma_foreign_concat(f, l, ids);
    lemma_foreign_idempotent(raw, ids);
    lemma_ls_blobs_handles(records, ids, wide);
    assert(foreign_blobs(f, ids) + Seq::<(u64, Seq<u8>)>::empty() =~= f);
}

pub proof fn lemma_foreign_keeps(raw: Seq<(u64, Seq<u8>)>, ids: Seq<(Seq<char>, u64)>, k: int)
    requires
        0 <= k < raw.len(),
        !is_ls_handle(ids, raw[k].0),
    ensures
        foreign_blobs(raw, ids).contains(raw[k]),
    decreases raw.len(),
{
    let prev = foreign_blobs(raw.drop_last(), ids);
    if k == raw.len() - 1 {
        assert(foreign_blobs(raw, ids) == prev.push(raw.last()));
        assert(foreign_blobs(raw, ids)[prev.len() as int] == raw[k]);
    } else {
        assert(raw.drop_last()[k] == raw[k]);
        lemma_foreign_keeps(raw.drop_last(), ids, k);
        let j = choose|j: int| 0 <= j < prev.len() && prev[j] == raw[k];
        if !is_ls_handle(ids, raw.last().0) {
            assert(foreign_blobs(raw, ids)[j] == prev[j]);
        }
    }
}

/// A commit preserves the other applications' blobs: every raw blob whose
/// handle belongs to no Land Survey application is still there afterwards.
pub proof fn law_commit_keeps_foreign(
    raw: Seq<(u64, Seq<u8>)>,
    records: Seq<XRecordModel>,
    ids: Seq<(Seq<char>, u64)>,
    wide: bool,
    k: int,
)
    requires
        0 <= k < raw.len(),
        !is_ls_handle(ids, raw[k].0),
    ensures
        committed(raw, records, ids, wide).contains(raw[k]),
{
    lemma_foreign_keeps(raw, ids, k);
    let f = foreign_blobs(raw, ids);
    let j = choose|j: int| 0 <= j < f.len() && f[j] == raw[k];
    assert(committed(raw, records, ids, wide)[j] == f[j]);
}

} // verus!

verus! {

/// The Land Survey records of an entity that have a registered handle, in
/// order: what a commit writes out.
pub open spec fn ls_records(records: Seq<XRecordModel>, ids: Seq<(Seq<char>, u64)>) -> Seq<
    XRecordModel,
>
    decreases records.len(),
{
    if records.len() == 0 {
        seq![]
    } else {
        let prev = ls_records(records.drop_last(), ids);
        let r = records.last();
        if ls_app(r.application_name) && handle_of(ids, r.application_name) is Some {
            prev.push(r)
        } else {
            prev
        }
    }
}

/// The application table has one entry per name and one per handle.
pub open spec fn unique_table(ids: Seq<(Seq<char>, u64)>) -> bool {
    forall|i: int, j: int|
        0 <= i < j < ids.len() ==> ids[i].0 != ids[j].0 && ids[i].1 != ids[j].1
}

/// Record `k` is one a commit writes out.
pub open spec fn written(records: Seq<XRecordModel>, ids: Seq<(Seq<char>, u64)>, k: int) -> bool {
    ls_app(records[k].application_name) && handle_of(ids, records[k].application_name) is Some
}

/// Every written record has a value, all its values survive the codec, and
/// no two written records share an application name.
pub open spec fn recoverable(records: Seq<XRecordModel>, ids: Seq<(Seq<char>, u64)>, wide: bool) -> bool {
    &&& forall|k: int|
        0 <= k < records.len() && #[trigger] written(records, ids, k) ==> records[k].values.len()
            > 0 && forall|m: int|
            0 <= m < records[k].values.len() ==> survives_codec(
                #[trigger] records[k].values[m],
                wide,
            )
    &&& forall|k: int, m: int|
        0 <= k < m < records.len() && #[trigger] written(records, ids, k) && #[trigger] written(
            records,
            ids,
            m,
        ) ==> records[k].application_name != records[m].application_name
}

pub proof fn lemma_handle_of_entry(ids: Seq<(Seq<char>, u64)>, n: Seq<char>)
    ensures
        handle_of(ids, n) matches Some(h) ==> exists|i: int|
            0 <= i < ids.len() && ids[i].0 == n && ids[i].1 == h,
        handle_of(ids, n) is None ==> forall|i: int| 0 <= i < ids.len() ==> ids[i].0 != n,
        unique_table(ids) ==> forall|i: int|
            0 <= i < ids.len() && ids[i].0 == n ==> handle_of(ids, n) == Some(ids[i].1),
    decreases ids.len(),
{
    if ids.len() > 0 {
        let d = ids.drop_last();
        lemma_handle_of_entry(d, n);
        if unique_table(ids) {
            assert(unique_table(d)) by {
                assert forall|i: int, j: int| 0 <= i < j < d.len() implies d[i].0 != d[j].0
                    && d[i].1 != d[j].1 by {
                    assert(d[i] == ids[i] && d[j] == ids[j]);
                }
            }
        }
        if let Some(h) = handle_of(ids, n) {
            if ids.last().0 != n {
                let i = choose|i: int| 0 <= i < d.len() && d[i].0 == n && d[i].1 == h;
                assert(ids[i] == d[i]);
            }
        } else {
            assert forall|i: int| 0 <= i < ids.len() implies ids[i].0 != n by {
                if i < d.len() {
                    assert(ids[i] == d[i]);
                }
            }
        }
        if unique_table(ids) {
            assert forall|i: int| 0 <= i < ids.len() && ids[i].0 == n implies handle_of(ids, n)
                == Some(ids[i].1) by {
                if i < d.len() {
                    assert(ids[i] == d[i]);
                    assert(ids[i].0 != ids[ids.len() - 1].0);
                }
            }
        }
    }
}

pub proof fn lemma_name_of_entry(ids: Seq<(Seq<char>, u64)>, h: u64)
    ensures
        name_of(ids, h) matches Some(n) ==> exists|i: int|
            0 <= i < ids.len() && ids[i].0 == n && ids[i].1 == h,
        unique_table(ids) ==> forall|i: int|
            0 <= i < ids.len() && ids[i].1 == h ==> name_of(ids, h) == Some(ids[i].0),
    decreases ids.len(),
{
    if ids.len() > 0 {
        let d = ids.drop_last();
        lemma_name_of_entry(d, h);
        if unique_table(ids) {
            assert(unique_table(d)) by {
                assert forall|i: int, j: int| 0 <= i < j < d.len() implies d[i].0 != d[j].0
                    && d[i].1 != d[j].1 by {
                    assert(d[i] == ids[i] && d[j] == ids[j]);
                }
            }
        }
        if let Some(n) = name_of(ids, h) {
            if ids.last().1 != h {
                let i = choose|i: int| 0 <= i < d.len() && d[i].0 == n && d[i].1 == h;
                assert(ids[i] == d[i]);
            }
        }
        if unique_table(ids) {
            assert forall|i: int| 0 <= i < ids.len() && ids[i].1 == h implies name_of(ids, h)
                == Some(ids[i].0) by {
                if i < d.len() {
                    assert(ids[i] == d[i]);
                    assert(ids[i].1 != ids[ids.len() - 1].1);
                }
            }
        }
    }
}

/// In a table with unique names and handles, handle and name lookups agree.
pub proof fn lemma_table_agrees(ids: Seq<(Seq<char>, u64)>, n: Seq<char>, h: u64)
    requires
        unique_table(ids),
    ensures
        (name_of(ids, h) == Some(n)) == (handle_of(ids, n) == Some(h)),
{
    lemma_handle_of_entry(ids, n);
    lemma_name_of_entry(ids, h);
    if name_of(ids, h) == Some(n) {
        let i = choose|i: int| 0 <= i < ids.len() && ids[i].0 == n && ids[i].1 == h;
    }
    if handle_of(ids, n) == Some(h) {
        let i = choose|i: int| 0 <= i < ids.len() && ids[i].0 == n && ids[i].1 == h;
    }
}

/// `hydrated` looks only at the first `n` blobs.
pub proof fn lemma_hydrated_prefix(
    a: Seq<(u64, Seq<u8>)>,
    b: Seq<(u64, Seq<u8>)>,
    existing: Seq<Seq<char>>,
    ids: Seq<(Seq<char>, u64)>,
    wide: bool,
    n: int,
)
    requires
        0 <= n <= a.len(),
        n <= b.len(),
        forall|k: int| 0 <= k < n ==> a[k] == b[k],
    ensures
        hydrated(a, existing, ids, wide, n) == hydrated(b, existing, ids, wide, n),
    decreases n,
{
    if n > 0 {
        lemma_hydrated_prefix(a, b, existing, ids, wide, n - 1);
    }
}

/// Blobs of other applications recover nothing.
pub proof fn lemma_hydrate_foreign(
    f: Seq<(u64, Seq<u8>)>,
    ids: Seq<(Seq<char>, u64)>,
    wide: bool,
    n: int,
)
    requires
        unique_table(ids),
        0 <= n <= f.len(),
        forall|k: int| 0 <= k < f.len() ==> !is_ls_handle(ids, #[trigger] f[k].0),
    ensures
        hydrated(f, seq![], ids, wide, n) == Seq::<XRecordModel>::empty(),
    decreases n,
{
    if n > 0 {
        lemma_hydrate_foreign(f, ids, wide, n - 1);
        let h = f[n - 1].0;
        if let Some(name) = name_of(ids, h) {
            if ls_app(name) {
                lemma_table_agrees(ids, name, h);
                assert(is_ls_handle(ids, h));
            }
        }
    }
}

/// The foreign blobs carry no Land Survey handle.
pub proof fn lemma_foreign_not_ls(raw: Seq<(u64, Seq<u8>)>, ids: Seq<(Seq<char>, u64)>)
    ensures
        forall|k: int|
            0 <= k < foreign_blobs(raw, ids).len() ==> !is_ls_handle(
                ids,
                #[trigger] foreign_blobs(raw, ids)[k].0,
            ),
    decreases raw.len(),
{
    if raw.len() > 0 {
        lemma_foreign_not_ls(raw.drop_last(), ids);
        let prev = foreign_blobs(raw.drop_last(), ids);
        let all = foreign_blobs(raw, ids);
        assert forall|k: int| 0 <= k < all.len() implies !is_ls_handle(ids, #[trigger] all[k].0) by {
            if k < prev.len() {
                assert(all[k] == prev[k]);
            }
        }
    }
}

/// Each record written out is one of the records, at an earlier position.
pub proof fn lemma_ls_records_origin(records: Seq<XRecordModel>, ids: Seq<(Seq<char>, u64)>)
    ensures
        ls_records(records, ids).len() <= records.len(),
        forall|k: int|
            0 <= k < ls_records(records, ids).len() ==> exists|j: int|
                0 <= j < records.len() && written(records, ids, j) && #[trigger] ls_records(
                    records,
                    ids,
                )[k] == records[j],
    decreases records.len(),
{
    if records.len() > 0 {
        let d = records.drop_last();
        lemma_ls_records_origin(d, ids);
        let prev = ls_records(d, ids);
        let all = ls_records(records, ids);
        assert forall|k: int| 0 <= k < all.len() implies exists|j: int|
            0 <= j < records.len() && written(records, ids, j) && #[trigger] all[k] == records[j] by {
            if k < prev.len() {
                let j = choose|j: int| 0 <= j < d.len() && written(d, ids, j) && prev[k] == d[j];
                assert(records[j] == d[j]);
                assert(written(records, ids, j));
                assert(all[k] == prev[k]);
            } else {
                assert(all[k] == records.last());
                assert(written(records, ids, records.len() - 1));
            }
        }
    }
}

} // verus!

verus! {

pub proof fn lemma_ls_blobs_len(records: Seq<XRecordModel>, ids: Seq<(Seq<char>, u64)>, wide: bool)
    ensures
        ls_blobs(records, ids, wide).len() == ls_records(records, ids).len(),
    decreases records.len(),
{
    if records.len() > 0 {
        lemma_ls_blobs_len(records.drop_last(), ids, wide);
    }
}

pub proof fn lemma_recoverable_prefix(records: Seq<XRecordModel>, ids: Seq<(Seq<char>, u64)>, wide: bool)
    requires
        records.len() > 0,
        recoverable(records, ids, wide),
    ensures
        recoverable(records.drop_last(), ids, wide),
{
    let d = records.drop_last();
    assert forall|k: int| 0 <= k < d.len() && #[trigger] written(d, ids, k) implies d[k].values.len()
        > 0 && forall|m: int|
        0 <= m < d[k].values.len() ==> survives_codec(#[trigger] d[k].values[m], wide) by {
        assert(d[k] == records[k]);
        assert(written(records, ids, k));
    }
    assert forall|k: int, m: int|
        0 <= k < m < d.len() && #[trigger] written(d, ids, k) && #[trigger] written(
            d,
            ids,
            m,
        ) implies d[k].application_name != d[m].application_name by {
        assert(d[k] == records[k] && d[m] == records[m]);
        assert(written(records, ids, k) && written(records, ids, m));
    }
}

/// Hydrating committed blobs recovers the written records.
#[verifier::rlimit(80)]
pub proof fn lemma_hydrate_committed(
    f: Seq<(u64, Seq<u8>)>,
    records: Seq<XRecordModel>,
    ids: Seq<(Seq<char>, u64)>,
    wide: bool,
)
    requires
        unique_table(ids),
        forall|k: int| 0 <= k < f.len() ==> !is_ls_handle(ids, #[trigger] f[k].0),
        recoverable(records, ids, wide),
    ensures
        hydrated(
            f + ls_blobs(records, ids, wide),
            seq![],
            ids,
            wide,
            (f.len() + ls_blobs(records, ids, wide).len()) as int,
        ) == ls_records(records, ids),
    decreases records.len(),
{
    let all = f + ls_blobs(records, ids, wide);
    if records.len() == 0 {
        assert(all =~= f);
        lemma_hydrate_foreign(f, ids, wide, f.len() as int);
    } else {
        let d = records.drop_last();
        let r = records.last();
        lemma_recoverable_prefix(records, ids, wide);
        lemma_hydrate_committed(f, d, ids, wide);
        let part = f + ls_blobs(d, ids, wide);
        let n = part.len() as int;
        lemma_hydrated_prefix(all, part, seq![], ids, wide, n);
        lemma_ls_blobs_len(d, ids, wide);
        if written(records, ids, records.len() - 1) {
            let h = handle_of(ids, r.application_name)->0;
            let bytes = values_bytes(r.values, wide);
            assert(ls_blobs(records, ids, wide) == ls_blobs(d, ids, wide).push((h, bytes)));
            assert(all =~= part.push((h, bytes)));
            assert(all[n] == (h, bytes));
            lemma_table_agrees(ids, r.application_name, h);
            let prev = ls_records(d, ids);
            let seen = Seq::<Seq<char>>::empty() + names_of(prev);
            lemma_ls_records_origin(d, ids);
            assert(!has_name(seen, r.application_name)) by {
                if has_name(seen, r.application_name) {
                    let k = choose|k: int| 0 <= k < seen.len() && seen[k] == r.application_name;
                    assert(seen[k] == prev[k].application_name);
                    let j = choose|j: int|
                        0 <= j < d.len() && written(d, ids, j) && #[trigger] prev[k] == d[j];
                    assert(d[j] == records[j]);
                    assert(written(records, ids, j));
                    assert(written(records, ids, records.len() - 1));
                }
            }
            assert(written(records, ids, records.len() - 1));
            assert forall|m: int| 0 <= m < r.values.len() implies survives_codec(
                #[trigger] r.values[m],
                wide,
            ) by {
                assert(records[records.len() - 1].values[m] == r.values[m]);
            }
            law_record_roundtrip(r.application_name, r.values, wide);
        } else {
            assert(ls_blobs(records, ids, wide) == ls_blobs(d, ids, wide));
            assert(all =~= part);
        }
    }
}

/// Hydrating after a commit gives back the Land Survey records: when an
/// entity's records are committed and the document is reopened with only the
/// raw blobs, hydration recovers exactly the Land Survey records that have a
/// registered application, in order — provided the application table has
/// one entry per name and per handle, and those records are recoverable
/// (each has a value, every value survives the codec, no application twice).
pub proof fn law_hydrate_after_commit(
    raw: Seq<(u64, Seq<u8>)>,
    records: Seq<XRecordModel>,
    ids: Seq<(Seq<char>, u64)>,
    wide: bool,
)
    requires
        unique_table(ids),
        recoverable(records, ids, wide),
    ensures
        hydrated(
            committed(raw, records, ids, wide),
            seq![],
            ids,
            wide,
            committed(raw, records, ids, wide).len() as int,
        ) == ls_records(records, ids),
{
    lemma_foreign_not_ls(raw, ids);
    lemma_hydrate_committed(foreign_blobs(raw, ids), records, ids, wide);
}

} // verus!

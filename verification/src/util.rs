//! Helpers that stand on their own: vectors under a model matrix,
//! barycentric combinations, file magic numbers and axis conventions.

use crate::vector::{dot4, Mat4, Vec2, Vec3, Vec4};
use vstd::prelude::*;

verus! {

/// Appends a one to a 2-vector.
pub fn vec2_append_one(vec: &Vec2) -> (r: Vec3)
    ensures
        r == (Vec3 { x: vec.x, y: vec.y, z: 1 }),
{
    Vec3 { x: vec.x, y: vec.y, z: 1 }
}

/// Appends a one to a 3-vector.
pub fn vec3_append_one(vec: &Vec3) -> (r: Vec4)
    ensures
        r == (Vec4 { x: vec.x, y: vec.y, z: vec.z, w: 1 }),
{
    Vec4 { x: vec.x, y: vec.y, z: vec.z, w: 1 }
}

/// The first three components of `model` times `v`.
pub open spec fn transformed(model: Mat4, v: Vec4) -> (int, int, int) {
    (dot4(model.r0, v), dot4(model.r1, v), dot4(model.r2, v))
}

/// Products of two scalars within `PRODUCT_SAFE` of zero, summed four
/// times, fit the scalar.
proof fn lemma_row_fits(r: Vec4, v: Vec4)
    requires
        r.is_small(),
        v.is_small(),
    ensures
        i64::MIN <= r.x * v.x <= i64::MAX,
        i64::MIN <= r.x * v.x + r.y * v.y <= i64::MAX,
        i64::MIN <= r.x * v.x + r.y * v.y + r.z * v.z <= i64::MAX,
        i64::MIN <= dot4(r, v) <= i64::MAX,
        i64::MIN <= r.y * v.y <= i64::MAX,
        i64::MIN <= r.z * v.z <= i64::MAX,
        i64::MIN <= r.w * v.w <= i64::MAX,
{
    crate::vector::lemma_small_product(r.x, v.x);
    crate::vector::lemma_small_product(r.y, v.y);
    crate::vector::lemma_small_product(r.z, v.z);
    crate::vector::lemma_small_product(r.w, v.w);
}

/// Applies the model matrix to a point given by three coordinates.
pub fn vec3_apply_model_matrix(v: &Vec3, model: &Mat4) -> (r: Vec3)
    requires
        v.is_small(),
        model.is_small(),
    ensures
        (r.x as int, r.y as int, r.z as int) == transformed(
            *model,
            Vec4 { x: v.x, y: v.y, z: v.z, w: 1 },
        ),
{
    let p = vec3_append_one(v);
    proof {
        lemma_row_fits(model.r0, p);
        lemma_row_fits(model.r1, p);
        lemma_row_fits(model.r2, p);
    }
    Vec3 {
        x: model.r0.x * p.x + model.r0.y * p.y + model.r0.z * p.z + model.r0.w * p.w,
        y: model.r1.x * p.x + model.r1.y * p.y + model.r1.z * p.z + model.r1.w * p.w,
        z: model.r2.x * p.x + model.r2.y * p.y + model.r2.z * p.z + model.r2.w * p.w,
    }
}

/// Applies the model matrix to a point given by two coordinates, the third
/// being zero.
pub fn vec2_apply_model_matrix(v: &Vec2, model: &Mat4) -> (r: Vec3)
    requires
        v.is_small(),
        model.is_small(),
    ensures
        (r.x as int, r.y as int, r.z as int) == transformed(
            *model,
            Vec4 { x: v.x, y: v.y, z: 0, w: 1 },
        ),
{
    let lifted = Vec3 { x: v.x, y: v.y, z: 0 };
    vec3_apply_model_matrix(&lifted, model)
}

/// The combination of three scalars with the weights `b`.
pub open spec fn weighted(a1: i64, a2: i64, a3: i64, b: Vec3) -> int {
    a1 * b.x + a2 * b.y + a3 * b.z
}

/// Combines three small scalars with small weights.
fn combine(a1: i64, a2: i64, a3: i64, b: &Vec3) -> (r: i64)
    requires
        crate::vector::small(a1),
        crate::vector::small(a2),
        crate::vector::small(a3),
        b.is_small(),
    ensures
        r == weighted(a1, a2, a3, *b),
{
    proof {
        crate::vector::lemma_small_product(a1, b.x);
        crate::vector::lemma_small_product(a2, b.y);
        crate::vector::lemma_small_product(a3, b.z);
    }
    a1 * b.x + a2 * b.y + a3 * b.z
}

/// Applies barycentric coordinates to three 2-vectors.
pub fn vec2_apply_bary_coord(v1: &Vec2, v2: &Vec2, v3: &Vec2, bary_coord: &Vec3) -> (r: Vec2)
    requires
        v1.is_small(),
        v2.is_small(),
        v3.is_small(),
        bary_coord.is_small(),
    ensures
        r.x == weighted(v1.x, v2.x, v3.x, *bary_coord),
        r.y == weighted(v1.y, v2.y, v3.y, *bary_coord),
{
    Vec2 {
        x: combine(v1.x, v2.x, v3.x, bary_coord),
        y: combine(v1.y, v2.y, v3.y, bary_coord),
    }
}

/// Applies barycentric coordinates to three 3-vectors.
pub fn vec3_apply_bary_coord(v1: &Vec3, v2: &Vec3, v3: &Vec3, bary_coord: &Vec3) -> (r: Vec3)
    requires
        v1.is_small(),
        v2.is_small(),
        v3.is_small(),
        bary_coord.is_small(),
    ensures
        r.x == weighted(v1.x, v2.x, v3.x, *bary_coord),
        r.y == weighted(v1.y, v2.y, v3.y, *bary_coord),
        r.z == weighted(v1.z, v2.z, v3.z, *bary_coord),
{
    Vec3 {
        x: combine(v1.x, v2.x, v3.x, bary_coord),
        y: combine(v1.y, v2.y, v3.y, bary_coord),
        z: combine(v1.z, v2.z, v3.z, bary_coord),
    }
}

/// Whether `data` starts with the magic bytes of a gzip stream: 0x1f 0x8b,
/// then 0x08 for the DEFLATE method.
pub open spec fn is_gzip(data: Seq<u8>) -> bool {
    data[0] == 0x1f && data[1] == 0x8b && data[2] == 0x08
}

/// Checks whether a file header holds the magic bytes of a gzip file.
pub fn file_magic_is_gzip(data: &[u8]) -> (r: bool)
    requires
        data@.len() >= 3,
    ensures
        r == is_gzip(data@),
{
    data[0] == 0x1f && data[1] == 0x8b && data[2] == 0x08
}

/// Whether `data` starts with the magic number of a Zstandard frame,
/// 0xFD2FB528, or of a skippable frame, 0x184D2A50 to 0x184D2A5F, in
/// little-endian byte order.
pub open spec fn is_zstd(data: Seq<u8>) -> bool {
    ||| (data[0] == 0x28 && data[1] == 0xB5 && data[2] == 0x2F && data[3] == 0xFD)
    ||| (0x50 <= data[0] <= 0x5F && data[1] == 0x2A && data[2] == 0x4D && data[3] == 0x18)
}

/// Checks whether a file header holds the magic bytes of a zstd file.
pub fn file_magic_is_zstd(data: &[u8]) -> (r: bool)
    requires
        data@.len() >= 4,
    ensures
        r == is_zstd(data@),
{
    let b0: u32 = data[0] as u32;
    let b1: u32 = data[1] as u32;
    let b2: u32 = data[2] as u32;
    let b3: u32 = data[3] as u32;
    let magic: u32 = b0 | (b1 << 8) | (b2 << 16) | (b3 << 24);
    proof {
        assert((magic == 0xFD2FB528u32) == (b0 == 0x28 && b1 == 0xB5 && b2 == 0x2F && b3 == 0xFD))
            by (bit_vector)
            requires
                magic == b0 | (b1 << 8) | (b2 << 16) | (b3 << 24),
                b0 < 256,
                b1 < 256,
                b2 < 256,
                b3 < 256,
        ;
        assert(((magic >> 4) == 0x184D2A5u32) == (0x50 <= b0 <= 0x5F && b1 == 0x2A && b2 == 0x4D
            && b3 == 0x18)) by (bit_vector)
            requires
                magic == b0 | (b1 << 8) | (b2 << 16) | (b3 << 24),
                b0 < 256,
                b1 < 256,
                b2 < 256,
                b3 < 256,
        ;
    }
    magic == 0xFD2FB528 || (magic >> 4) == 0x184D2A5
}

/// A direction along a coordinate axis.
#[derive(Debug, Copy, Clone, PartialEq, Eq, Structural)]
pub enum Axis {
    X,
    Y,
    Z,
    NegX,
    NegY,
    NegZ,
}

impl Axis {
    /// The number of this axis: 0 to 2 for X, Y, Z and 3 to 5 for their
    /// negations.
    pub open spec fn spec_index(self) -> int {
        match self {
            Axis::X => 0,
            Axis::Y => 1,
            Axis::Z => 2,
            Axis::NegX => 3,
            Axis::NegY => 4,
            Axis::NegZ => 5,
        }
    }

    /// Returns the number of this axis.
    pub fn index(self) -> (r: usize)
        ensures
            r == self.spec_index(),
    {
        match self {
            Axis::X => 0,
            Axis::Y => 1,
            Axis::Z => 2,
            Axis::NegX => 3,
            Axis::NegY => 4,
            Axis::NegZ => 5,
        }
    }

    /// Returns the axis with the number `value`, if there is one.
    pub fn from_index(value: usize) -> (r: Option<Axis>)
        ensures
            value < 6 ==> r.is_some() && r.unwrap().spec_index() == value,
            value >= 6 ==> r.is_none(),
    {
        if value == 0 {
            Some(Axis::X)
        } else if value == 1 {
            Some(Axis::Y)
        } else if value == 2 {
            Some(Axis::Z)
        } else if value == 3 {
            Some(Axis::NegX)
        } else if value == 4 {
            Some(Axis::NegY)
        } else if value == 5 {
            Some(Axis::NegZ)
        } else {
            None
        }
    }

    /// The name of this axis.
    pub open spec fn spec_name(self) -> Seq<char> {
        match self {
            Axis::X => "X"@,
            Axis::Y => "Y"@,
            Axis::Z => "Z"@,
            Axis::NegX => "-X"@,
            Axis::NegY => "-Y"@,
            Axis::NegZ => "-Z"@,
        }
    }

    /// Returns the name of this axis.
    pub fn name(&self) -> (r: &'static str)
        ensures
            r@ == self.spec_name(),
    {
        match self {
            Axis::X => "X",
            Axis::Y => "Y",
            Axis::Z => "Z",
            Axis::NegX => "-X",
            Axis::NegY => "-Y",
            Axis::NegZ => "-Z",
        }
    }

    /// The six axes in the order of their numbers.
    pub fn all() -> (r: Vec<Axis>)
        ensures
            r@.len() == 6,
            forall|i: int| 0 <= i < 6 ==> (#[trigger] r@[i]).spec_index() == i,
    {
        let mut r: Vec<Axis> = Vec::new();
        r.push(Axis::X);
        r.push(Axis::Y);
        r.push(Axis::Z);
        r.push(Axis::NegX);
        r.push(Axis::NegY);
        r.push(Axis::NegZ);
        r
    }
}

/// The number of axis setups that convert by one and the same matrix.
pub const LUT_COLUMNS: usize = 24;

/// The number of conversion matrices other than the identity.
pub const LUT_ROWS: usize = 23;

/// The code of a conversion: the numbers of the four axes, three bits each.
pub open spec fn conversion_code(
    from_forward: Axis,
    from_up: Axis,
    to_forward: Axis,
    to_up: Axis,
) -> int {
    from_forward.spec_index() + 8 * from_up.spec_index() + 64 * to_forward.spec_index() + 512
        * to_up.spec_index()
}
/// Row `row` of the table of conversion codes: the codes of the conversions
/// that matrix `row` performs.
pub open spec fn lut_row(row: int) -> Seq<u16> {
    if row == 0 {
        seq![
            0x8c8u16, 0x4d0u16, 0x2e0u16, 0xae8u16, 0x701u16, 0x511u16, 0x119u16, 0xb29u16,
            0x682u16, 0x88au16, 0x09au16, 0x2a2u16, 0x80bu16, 0x413u16, 0x223u16, 0xa2bu16,
            0x644u16, 0x454u16, 0x05cu16, 0xa6cu16, 0x745u16, 0x94du16, 0x15du16, 0x365u16,
        ]
    } else if row == 1 {
        seq![
            0xac8u16, 0x8d0u16, 0x4e0u16, 0x2e8u16, 0x741u16, 0x951u16, 0x159u16, 0x369u16,
            0x702u16, 0xb0au16, 0x11au16, 0x522u16, 0xa0bu16, 0x813u16, 0x423u16, 0x22bu16,
            0x684u16, 0x894u16, 0x09cu16, 0x2acu16, 0x645u16, 0xa4du16, 0x05du16, 0x465u16,
        ]
    } else if row == 2 {
        seq![
            0x4c8u16, 0x2d0u16, 0xae0u16, 0x8e8u16, 0x681u16, 0x291u16, 0x099u16, 0x8a9u16,
            0x642u16, 0x44au16, 0x05au16, 0xa62u16, 0x40bu16, 0x213u16, 0xa23u16, 0x82bu16,
            0x744u16, 0x354u16, 0x15cu16, 0x96cu16, 0x705u16, 0x50du16, 0x11du16, 0xb25u16,
        ]
    } else if row == 3 {
        seq![
            0x2c8u16, 0xad0u16, 0x8e0u16, 0x4e8u16, 0x641u16, 0xa51u16, 0x059u16, 0x469u16,
            0x742u16, 0x34au16, 0x15au16, 0x962u16, 0x20bu16, 0xa13u16, 0x823u16, 0x42bu16,
            0x704u16, 0xb14u16, 0x11cu16, 0x52cu16, 0x685u16, 0x28du16, 0x09du16, 0x8a5u16,
        ]
    } else if row == 4 {
        seq![
            0x708u16, 0xb10u16, 0x120u16, 0x528u16, 0x8c1u16, 0xad1u16, 0x2d9u16, 0x4e9u16,
            0x942u16, 0x74au16, 0x35au16, 0x162u16, 0x64bu16, 0xa53u16, 0x063u16, 0x46bu16,
            0x804u16, 0xa14u16, 0x21cu16, 0x42cu16, 0x885u16, 0x68du16, 0x29du16, 0x0a5u16,
        ]
    } else if row == 5 {
        seq![
            0xb08u16, 0x110u16, 0x520u16, 0x728u16, 0x941u16, 0x151u16, 0x359u16, 0x769u16,
            0x802u16, 0xa0au16, 0x21au16, 0x422u16, 0xa4bu16, 0x053u16, 0x463u16, 0x66bu16,
            0x884u16, 0x094u16, 0x29cu16, 0x6acu16, 0x8c5u16, 0xacdu16, 0x2ddu16, 0x4e5u16,
        ]
    } else if row == 6 {
        seq![
            0x508u16, 0x710u16, 0xb20u16, 0x128u16, 0x881u16, 0x691u16, 0x299u16, 0x0a9u16,
            0x8c2u16, 0x4cau16, 0x2dau16, 0xae2u16, 0x44bu16, 0x653u16, 0xa63u16, 0x06bu16,
            0x944u16, 0x754u16, 0x35cu16, 0x16cu16, 0x805u16, 0x40du16, 0x21du16, 0xa25u16,
        ]
    } else if row == 7 {
        seq![
            0x108u16, 0x510u16, 0x720u16, 0xb28u16, 0x801u16, 0x411u16, 0x219u16, 0xa29u16,
            0x882u16, 0x08au16, 0x29au16, 0x6a2u16, 0x04bu16, 0x453u16, 0x663u16, 0xa6bu16,
            0x8c4u16, 0x4d4u16, 0x2dcu16, 0xaecu16, 0x945u16, 0x14du16, 0x35du16, 0x765u16,
        ]
    } else if row == 8 {
        seq![
            0x748u16, 0x350u16, 0x160u16, 0x968u16, 0xac1u16, 0x2d1u16, 0x4d9u16, 0x8e9u16,
            0xa42u16, 0x64au16, 0x45au16, 0x062u16, 0x68bu16, 0x293u16, 0x0a3u16, 0x8abu16,
            0xa04u16, 0x214u16, 0x41cu16, 0x82cu16, 0xb05u16, 0x70du16, 0x51du16, 0x125u16,
        ]
    } else if row == 9 {
        seq![
            0x948u16, 0x750u16, 0x360u16, 0x168u16, 0xb01u16, 0x711u16, 0x519u16, 0x129u16,
            0xac2u16, 0x8cau16, 0x4dau16, 0x2e2u16, 0x88bu16, 0x693u16, 0x2a3u16, 0x0abu16,
            0xa44u16, 0x654u16, 0x45cu16, 0x06cu16, 0xa05u16, 0x80du16, 0x41du16, 0x225u16,
        ]
    } else if row == 10 {
        seq![
            0x348u16, 0x150u16, 0x960u16, 0x768u16, 0xa41u16, 0x051u16, 0x459u16, 0x669u16,
            0xa02u16, 0x20au16, 0x41au16, 0x822u16, 0x28bu16, 0x093u16, 0x8a3u16, 0x6abu16,
            0xb04u16, 0x114u16, 0x51cu16, 0x72cu16, 0xac5u16, 0x2cdu16, 0x4ddu16, 0x8e5u16,
        ]
    } else if row == 11 {
        seq![
            0x148u16, 0x950u16, 0x760u16, 0x368u16, 0xa01u16, 0x811u16, 0x419u16, 0x229u16,
            0xb02u16, 0x10au16, 0x51au16, 0x722u16, 0x08bu16, 0x893u16, 0x6a3u16, 0x2abu16,
            0xac4u16, 0x8d4u16, 0x4dcu16, 0x2ecu16, 0xa45u16, 0x04du16, 0x45du16, 0x665u16,
        ]
    } else if row == 12 {
        seq![
            0x688u16, 0x890u16, 0x0a0u16, 0x2a8u16, 0x4c1u16, 0x8d1u16, 0xad9u16, 0x2e9u16,
            0x502u16, 0x70au16, 0xb1au16, 0x122u16, 0x74bu16, 0x953u16, 0x163u16, 0x36bu16,
            0x404u16, 0x814u16, 0xa1cu16, 0x22cu16, 0x445u16, 0x64du16, 0xa5du16, 0x065u16,
        ]
    } else if row == 13 {
        seq![
            0x888u16, 0x090u16, 0x2a0u16, 0x6a8u16, 0x501u16, 0x111u16, 0xb19u16, 0x729u16,
            0x402u16, 0x80au16, 0xa1au16, 0x222u16, 0x94bu16, 0x153u16, 0x363u16, 0x76bu16,
            0x444u16, 0x054u16, 0xa5cu16, 0x66cu16, 0x4c5u16, 0x8cdu16, 0xaddu16, 0x2e5u16,
        ]
    } else if row == 14 {
        seq![
            0x288u16, 0x690u16, 0x8a0u16, 0x0a8u16, 0x441u16, 0x651u16, 0xa59u16, 0x069u16,
            0x4c2u16, 0x2cau16, 0xadau16, 0x8e2u16, 0x34bu16, 0x753u16, 0x963u16, 0x16bu16,
            0x504u16, 0x714u16, 0xb1cu16, 0x12cu16, 0x405u16, 0x20du16, 0xa1du16, 0x825u16,
        ]
    } else if row == 15 {
        seq![
            0x088u16, 0x290u16, 0x6a0u16, 0x8a8u16, 0x401u16, 0x211u16, 0xa19u16, 0x829u16,
            0x442u16, 0x04au16, 0xa5au16, 0x662u16, 0x14bu16, 0x353u16, 0x763u16, 0x96bu16,
            0x4c4u16, 0x2d4u16, 0xadcu16, 0x8ecu16, 0x505u16, 0x10du16, 0xb1du16, 0x725u16,
        ]
    } else if row == 16 {
        seq![
            0x648u16, 0x450u16, 0x060u16, 0xa68u16, 0x2c1u16, 0x4d1u16, 0x8d9u16, 0xae9u16,
            0x282u16, 0x68au16, 0x89au16, 0x0a2u16, 0x70bu16, 0x513u16, 0x123u16, 0xb2bu16,
            0x204u16, 0x414u16, 0x81cu16, 0xa2cu16, 0x345u16, 0x74du16, 0x95du16, 0x165u16,
        ]
    } else if row == 17 {
        seq![
            0xa48u16, 0x650u16, 0x460u16, 0x068u16, 0x341u16, 0x751u16, 0x959u16, 0x169u16,
            0x2c2u16, 0xacau16, 0x8dau16, 0x4e2u16, 0xb0bu16, 0x713u16, 0x523u16, 0x12bu16,
            0x284u16, 0x694u16, 0x89cu16, 0x0acu16, 0x205u16, 0xa0du16, 0x81du16, 0x425u16,
        ]
    } else if row == 18 {
        seq![
            0x448u16, 0x050u16, 0xa60u16, 0x668u16, 0x281u16, 0x091u16, 0x899u16, 0x6a9u16,
            0x202u16, 0x40au16, 0x81au16, 0xa22u16, 0x50bu16, 0x113u16, 0xb23u16, 0x72bu16,
            0x344u16, 0x154u16, 0x95cu16, 0x76cu16, 0x2c5u16, 0x4cdu16, 0x8ddu16, 0xae5u16,
        ]
    } else if row == 19 {
        seq![
            0x048u16, 0xa50u16, 0x660u16, 0x468u16, 0x201u16, 0xa11u16, 0x819u16, 0x429u16,
            0x342u16, 0x14au16, 0x95au16, 0x762u16, 0x10bu16, 0xb13u16, 0x723u16, 0x52bu16,
            0x2c4u16, 0xad4u16, 0x8dcu16, 0x4ecu16, 0x285u16, 0x08du16, 0x89du16, 0x6a5u16,
        ]
    } else if row == 20 {
        seq![
            0x808u16, 0xa10u16, 0x220u16, 0x428u16, 0x101u16, 0xb11u16, 0x719u16, 0x529u16,
            0x142u16, 0x94au16, 0x75au16, 0x362u16, 0x8cbu16, 0xad3u16, 0x2e3u16, 0x4ebu16,
            0x044u16, 0xa54u16, 0x65cu16, 0x46cu16, 0x085u16, 0x88du16, 0x69du16, 0x2a5u16,
        ]
    } else if row == 21 {
        seq![
            0xa08u16, 0x210u16, 0x420u16, 0x828u16, 0x141u16, 0x351u16, 0x759u16, 0x969u16,
            0x042u16, 0xa4au16, 0x65au16, 0x462u16, 0xacbu16, 0x2d3u16, 0x4e3u16, 0x8ebu16,
            0x084u16, 0x294u16, 0x69cu16, 0x8acu16, 0x105u16, 0xb0du16, 0x71du16, 0x525u16,
        ]
    } else {
        seq![
            0x408u16, 0x810u16, 0xa20u16, 0x228u16, 0x081u16, 0x891u16, 0x699u16, 0x2a9u16,
            0x102u16, 0x50au16, 0x71au16, 0xb22u16, 0x4cbu16, 0x8d3u16, 0xae3u16, 0x2ebu16,
            0x144u16, 0x954u16, 0x75cu16, 0x36cu16, 0x045u16, 0x44du16, 0x65du16, 0xa65u16,
        ]
    }
}

/// Returns row `row` of the table of conversion codes.
fn axis_convert_lut(row: usize) -> (r: [u16; 24])
    requires
        row < LUT_ROWS,
    ensures
        r@ == lut_row(row as int),
{
    if row == 0 {
        let r: [u16; 24] = [
            0x8c8, 0x4d0, 0x2e0, 0xae8, 0x701, 0x511, 0x119, 0xb29,
            0x682, 0x88a, 0x09a, 0x2a2, 0x80b, 0x413, 0x223, 0xa2b,
            0x644, 0x454, 0x05c, 0xa6c, 0x745, 0x94d, 0x15d, 0x365,
        ];
        proof {
            assert(r@ =~= lut_row(0));
        }
        r
    } else if row == 1 {
        let r: [u16; 24] = [
            0xac8, 0x8d0, 0x4e0, 0x2e8, 0x741, 0x951, 0x159, 0x369,
            0x702, 0xb0a, 0x11a, 0x522, 0xa0b, 0x813, 0x423, 0x22b,
            0x684, 0x894, 0x09c, 0x2ac, 0x645, 0xa4d, 0x05d, 0x465,
        ];
        proof {
            assert(r@ =~= lut_row(1));
        }
        r
    } else if row == 2 {
        let r: [u16; 24] = [
            0x4c8, 0x2d0, 0xae0, 0x8e8, 0x681, 0x291, 0x099, 0x8a9,
            0x642, 0x44a, 0x05a, 0xa62, 0x40b, 0x213, 0xa23, 0x82b,
            0x744, 0x354, 0x15c, 0x96c, 0x705, 0x50d, 0x11d, 0xb25,
        ];
        proof {
            assert(r@ =~= lut_row(2));
        }
        r
    } else if row == 3 {
        let r: [u16; 24] = [
            0x2c8, 0xad0, 0x8e0, 0x4e8, 0x641, 0xa51, 0x059, 0x469,
            0x742, 0x34a, 0x15a, 0x962, 0x20b, 0xa13, 0x823, 0x42b,
            0x704, 0xb14, 0x11c, 0x52c, 0x685, 0x28d, 0x09d, 0x8a5,
        ];
        proof {
            assert(r@ =~= lut_row(3));
        }
        r
    } else if row == 4 {
        let r: [u16; 24] = [
            0x708, 0xb10, 0x120, 0x528, 0x8c1, 0xad1, 0x2d9, 0x4e9,
            0x942, 0x74a, 0x35a, 0x162, 0x64b, 0xa53, 0x063, 0x46b,
            0x804, 0xa14, 0x21c, 0x42c, 0x885, 0x68d, 0x29d, 0x0a5,
        ];
        proof {
            assert(r@ =~= lut_row(4));
        }
        r
    } else if row == 5 {
        let r: [u16; 24] = [
            0xb08, 0x110, 0x520, 0x728, 0x941, 0x151, 0x359, 0x769,
            0x802, 0xa0a, 0x21a, 0x422, 0xa4b, 0x053, 0x463, 0x66b,
            0x884, 0x094, 0x29c, 0x6ac, 0x8c5, 0xacd, 0x2dd, 0x4e5,
        ];
        proof {
            assert(r@ =~= lut_row(5));
        }
        r
    } else if row == 6 {
        let r: [u16; 24] = [
            0x508, 0x710, 0xb20, 0x128, 0x881, 0x691, 0x299, 0x0a9,
            0x8c2, 0x4ca, 0x2da, 0xae2, 0x44b, 0x653, 0xa63, 0x06b,
            0x944, 0x754, 0x35c, 0x16c, 0x805, 0x40d, 0x21d, 0xa25,
        ];
        proof {
            assert(r@ =~= lut_row(6));
        }
        r
    } else if row == 7 {
        let r: [u16; 24] = [
            0x108, 0x510, 0x720, 0xb28, 0x801, 0x411, 0x219, 0xa29,
            0x882, 0x08a, 0x29a, 0x6a2, 0x04b, 0x453, 0x663, 0xa6b,
            0x8c4, 0x4d4, 0x2dc, 0xaec, 0x945, 0x14d, 0x35d, 0x765,
        ];
        proof {
            assert(r@ =~= lut_row(7));
        }
        r
    } else if row == 8 {
        let r: [u16; 24] = [
            0x748, 0x350, 0x160, 0x968, 0xac1, 0x2d1, 0x4d9, 0x8e9,
            0xa42, 0x64a, 0x45a, 0x062, 0x68b, 0x293, 0x0a3, 0x8ab,
            0xa04, 0x214, 0x41c, 0x82c, 0xb05, 0x70d, 0x51d, 0x125,
        ];
        proof {
            assert(r@ =~= lut_row(8));
        }
        r
    } else if row == 9 {
        let r: [u16; 24] = [
            0x948, 0x750, 0x360, 0x168, 0xb01, 0x711, 0x519, 0x129,
            0xac2, 0x8ca, 0x4da, 0x2e2, 0x88b, 0x693, 0x2a3, 0x0ab,
            0xa44, 0x654, 0x45c, 0x06c, 0xa05, 0x80d, 0x41d, 0x225,
        ];
        proof {
            assert(r@ =~= lut_row(9));
        }
        r
    } else if row == 10 {
        let r: [u16; 24] = [
            0x348, 0x150, 0x960, 0x768, 0xa41, 0x051, 0x459, 0x669,
            0xa02, 0x20a, 0x41a, 0x822, 0x28b, 0x093, 0x8a3, 0x6ab,
            0xb04, 0x114, 0x51c, 0x72c, 0xac5, 0x2cd, 0x4dd, 0x8e5,
        ];
        proof {
            assert(r@ =~= lut_row(10));
        }
        r
    } else if row == 11 {
        let r: [u16; 24] = [
            0x148, 0x950, 0x760, 0x368, 0xa01, 0x811, 0x419, 0x229,
            0xb02, 0x10a, 0x51a, 0x722, 0x08b, 0x893, 0x6a3, 0x2ab,
            0xac4, 0x8d4, 0x4dc, 0x2ec, 0xa45, 0x04d, 0x45d, 0x665,
        ];
        proof {
            assert(r@ =~= lut_row(11));
        }
        r
    } else if row == 12 {
        let r: [u16; 24] = [
            0x688, 0x890, 0x0a0, 0x2a8, 0x4c1, 0x8d1, 0xad9, 0x2e9,
            0x502, 0x70a, 0xb1a, 0x122, 0x74b, 0x953, 0x163, 0x36b,
            0x404, 0x814, 0xa1c, 0x22c, 0x445, 0x64d, 0xa5d, 0x065,
        ];
        proof {
            assert(r@ =~= lut_row(12));
        }
        r
    } else if row == 13 {
        let r: [u16; 24] = [
            0x888, 0x090, 0x2a0, 0x6a8, 0x501, 0x111, 0xb19, 0x729,
            0x402, 0x80a, 0xa1a, 0x222, 0x94b, 0x153, 0x363, 0x76b,
            0x444, 0x054, 0xa5c, 0x66c, 0x4c5, 0x8cd, 0xadd, 0x2e5,
        ];
        proof {
            assert(r@ =~= lut_row(13));
        }
        r
    } else if row == 14 {
        let r: [u16; 24] = [
            0x288, 0x690, 0x8a0, 0x0a8, 0x441, 0x651, 0xa59, 0x069,
            0x4c2, 0x2ca, 0xada, 0x8e2, 0x34b, 0x753, 0x963, 0x16b,
            0x504, 0x714, 0xb1c, 0x12c, 0x405, 0x20d, 0xa1d, 0x825,
        ];
        proof {
            assert(r@ =~= lut_row(14));
        }
        r
    } else if row == 15 {
        let r: [u16; 24] = [
            0x088, 0x290, 0x6a0, 0x8a8, 0x401, 0x211, 0xa19, 0x829,
            0x442, 0x04a, 0xa5a, 0x662, 0x14b, 0x353, 0x763, 0x96b,
            0x4c4, 0x2d4, 0xadc, 0x8ec, 0x505, 0x10d, 0xb1d, 0x725,
        ];
        proof {
            assert(r@ =~= lut_row(15));
        }
        r
    } else if row == 16 {
        let r: [u16; 24] = [
            0x648, 0x450, 0x060, 0xa68, 0x2c1, 0x4d1, 0x8d9, 0xae9,
            0x282, 0x68a, 0x89a, 0x0a2, 0x70b, 0x513, 0x123, 0xb2b,
            0x204, 0x414, 0x81c, 0xa2c, 0x345, 0x74d, 0x95d, 0x165,
        ];
        proof {
            assert(r@ =~= lut_row(16));
        }
        r
    } else if row == 17 {
        let r: [u16; 24] = [
            0xa48, 0x650, 0x460, 0x068, 0x341, 0x751, 0x959, 0x169,
            0x2c2, 0xaca, 0x8da, 0x4e2, 0xb0b, 0x713, 0x523, 0x12b,
            0x284, 0x694, 0x89c, 0x0ac, 0x205, 0xa0d, 0x81d, 0x425,
        ];
        proof {
            assert(r@ =~= lut_row(17));
        }
        r
    } else if row == 18 {
        let r: [u16; 24] = [
            0x448, 0x050, 0xa60, 0x668, 0x281, 0x091, 0x899, 0x6a9,
            0x202, 0x40a, 0x81a, 0xa22, 0x50b, 0x113, 0xb23, 0x72b,
            0x344, 0x154, 0x95c, 0x76c, 0x2c5, 0x4cd, 0x8dd, 0xae5,
        ];
        proof {
            assert(r@ =~= lut_row(18));
        }
        r
    } else if row == 19 {
        let r: [u16; 24] = [
            0x048, 0xa50, 0x660, 0x468, 0x201, 0xa11, 0x819, 0x429,
            0x342, 0x14a, 0x95a, 0x762, 0x10b, 0xb13, 0x723, 0x52b,
            0x2c4, 0xad4, 0x8dc, 0x4ec, 0x285, 0x08d, 0x89d, 0x6a5,
        ];
        proof {
            assert(r@ =~= lut_row(19));
        }
        r
    } else if row == 20 {
        let r: [u16; 24] = [
            0x808, 0xa10, 0x220, 0x428, 0x101, 0xb11, 0x719, 0x529,
            0x142, 0x94a, 0x75a, 0x362, 0x8cb, 0xad3, 0x2e3, 0x4eb,
            0x044, 0xa54, 0x65c, 0x46c, 0x085, 0x88d, 0x69d, 0x2a5,
        ];
        proof {
            assert(r@ =~= lut_row(20));
        }
        r
    } else if row == 21 {
        let r: [u16; 24] = [
            0xa08, 0x210, 0x420, 0x828, 0x141, 0x351, 0x759, 0x969,
            0x042, 0xa4a, 0x65a, 0x462, 0xacb, 0x2d3, 0x4e3, 0x8eb,
            0x084, 0x294, 0x69c, 0x8ac, 0x105, 0xb0d, 0x71d, 0x525,
        ];
        proof {
            assert(r@ =~= lut_row(21));
        }
        r
    } else {
        let r: [u16; 24] = [
            0x408, 0x810, 0xa20, 0x228, 0x081, 0x891, 0x699, 0x2a9,
            0x102, 0x50a, 0x71a, 0xb22, 0x4cb, 0x8d3, 0xae3, 0x2eb,
            0x144, 0x954, 0x75c, 0x36c, 0x045, 0x44d, 0x65d, 0xa65,
        ];
        proof {
            assert(r@ =~= lut_row(22));
        }
        r
    }
}

/// Conversion matrix `row`: a rotation of the axes, as a 4x4 matrix.
pub open spec fn conversion_matrix(row: int) -> Mat4 {
    if row == 0 {
        Mat4 {
            r0: Vec4 { x: -1i64, y: 0, z: 0, w: 0 },
            r1: Vec4 { x: 0, y: -1i64, z: 0, w: 0 },
            r2: Vec4 { x: 0, y: 0, z: 1, w: 0 },
            r3: Vec4 { x: 0, y: 0, z: 0, w: 1 },
        }
    } else if row == 1 {
        Mat4 {
            r0: Vec4 { x: -1i64, y: 0, z: 0, w: 0 },
            r1: Vec4 { x: 0, y: 0, z: -1i64, w: 0 },
            r2: Vec4 { x: 0, y: -1i64, z: 0, w: 0 },
            r3: Vec4 { x: 0, y: 0, z: 0, w: 1 },
        }
    } else if row == 2 {
        Mat4 {
            r0: Vec4 { x: -1i64, y: 0, z: 0, w: 0 },
            r1: Vec4 { x: 0, y: 0, z: 1, w: 0 },
            r2: Vec4 { x: 0, y: 1, z: 0, w: 0 },
            r3: Vec4 { x: 0, y: 0, z: 0, w: 1 },
        }
    } else if row == 3 {
        Mat4 {
            r0: Vec4 { x: -1i64, y: 0, z: 0, w: 0 },
            r1: Vec4 { x: 0, y: 1, z: 0, w: 0 },
            r2: Vec4 { x: 0, y: 0, z: -1i64, w: 0 },
            r3: Vec4 { x: 0, y: 0, z: 0, w: 1 },
        }
    } else if row == 4 {
        Mat4 {
            r0: Vec4 { x: 0, y: -1i64, z: 0, w: 0 },
            r1: Vec4 { x: -1i64, y: 0, z: 0, w: 0 },
            r2: Vec4 { x: 0, y: 0, z: -1i64, w: 0 },
            r3: Vec4 { x: 0, y: 0, z: 0, w: 1 },
        }
    } else if row == 5 {
        Mat4 {
            r0: Vec4 { x: 0, y: 0, z: 1, w: 0 },
            r1: Vec4 { x: -1i64, y: 0, z: 0, w: 0 },
            r2: Vec4 { x: 0, y: -1i64, z: 0, w: 0 },
            r3: Vec4 { x: 0, y: 0, z: 0, w: 1 },
        }
    } else if row == 6 {
        Mat4 {
            r0: Vec4 { x: 0, y: 0, z: -1i64, w: 0 },
            r1: Vec4 { x: -1i64, y: 0, z: 0, w: 0 },
            r2: Vec4 { x: 0, y: 1, z: 0, w: 0 },
            r3: Vec4 { x: 0, y: 0, z: 0, w: 1 },
        }
    } else if row == 7 {
        Mat4 {
            r0: Vec4 { x: 0, y: 1, z: 0, w: 0 },
            r1: Vec4 { x: -1i64, y: 0, z: 0, w: 0 },
            r2: Vec4 { x: 0, y: 0, z: 1, w: 0 },
            r3: Vec4 { x: 0, y: 0, z: 0, w: 1 },
        }
    } else if row == 8 {
        Mat4 {
            r0: Vec4 { x: 0, y: -1i64, z: 0, w: 0 },
            r1: Vec4 { x: 0, y: 0, z: 1, w: 0 },
            r2: Vec4 { x: -1i64, y: 0, z: 0, w: 0 },
            r3: Vec4 { x: 0, y: 0, z: 0, w: 1 },
        }
    } else if row == 9 {
        Mat4 {
            r0: Vec4 { x: 0, y: 0, z: -1i64, w: 0 },
            r1: Vec4 { x: 0, y: -1i64, z: 0, w: 0 },
            r2: Vec4 { x: -1i64, y: 0, z: 0, w: 0 },
            r3: Vec4 { x: 0, y: 0, z: 0, w: 1 },
        }
    } else if row == 10 {
        Mat4 {
            r0: Vec4 { x: 0, y: 0, z: 1, w: 0 },
            r1: Vec4 { x: 0, y: 1, z: 0, w: 0 },
            r2: Vec4 { x: -1i64, y: 0, z: 0, w: 0 },
            r3: Vec4 { x: 0, y: 0, z: 0, w: 1 },
        }
    } else if row == 11 {
        Mat4 {
            r0: Vec4 { x: 0, y: 1, z: 0, w: 0 },
            r1: Vec4 { x: 0, y: 0, z: -1i64, w: 0 },
            r2: Vec4 { x: -1i64, y: 0, z: 0, w: 0 },
            r3: Vec4 { x: 0, y: 0, z: 0, w: 1 },
        }
    } else if row == 12 {
        Mat4 {
            r0: Vec4 { x: 0, y: -1i64, z: 0, w: 0 },
            r1: Vec4 { x: 0, y: 0, z: -1i64, w: 0 },
            r2: Vec4 { x: 1, y: 0, z: 0, w: 0 },
            r3: Vec4 { x: 0, y: 0, z: 0, w: 1 },
        }
    } else if row == 13 {
        Mat4 {
            r0: Vec4 { x: 0, y: 0, z: 1, w: 0 },
            r1: Vec4 { x: 0, y: -1i64, z: 0, w: 0 },
            r2: Vec4 { x: 1, y: 0, z: 0, w: 0 },
            r3: Vec4 { x: 0, y: 0, z: 0, w: 1 },
        }
    } else if row == 14 {
        Mat4 {
            r0: Vec4 { x: 0, y: 0, z: -1i64, w: 0 },
            r1: Vec4 { x: 0, y: 1, z: 0, w: 0 },
            r2: Vec4 { x: 1, y: 0, z: 0, w: 0 },
            r3: Vec4 { x: 0, y: 0, z: 0, w: 1 },
        }
    } else if row == 15 {
        Mat4 {
            r0: Vec4 { x: 0, y: 1, z: 0, w: 0 },
            r1: Vec4 { x: 0, y: 0, z: 1, w: 0 },
            r2: Vec4 { x: 1, y: 0, z: 0, w: 0 },
            r3: Vec4 { x: 0, y: 0, z: 0, w: 1 },
        }
    } else if row == 16 {
        Mat4 {
            r0: Vec4 { x: 0, y: -1i64, z: 0, w: 0 },
            r1: Vec4 { x: 1, y: 0, z: 0, w: 0 },
            r2: Vec4 { x: 0, y: 0, z: 1, w: 0 },
            r3: Vec4 { x: 0, y: 0, z: 0, w: 1 },
        }
    } else if row == 17 {
        Mat4 {
            r0: Vec4 { x: 0, y: 0, z: -1i64, w: 0 },
            r1: Vec4 { x: 1, y: 0, z: 0, w: 0 },
            r2: Vec4 { x: 0, y: -1i64, z: 0, w: 0 },
            r3: Vec4 { x: 0, y: 0, z: 0, w: 1 },
        }
    } else if row == 18 {
        Mat4 {
            r0: Vec4 { x: 0, y: 0, z: 1, w: 0 },
            r1: Vec4 { x: 1, y: 0, z: 0, w: 0 },
            r2: Vec4 { x: 0, y: 1, z: 0, w: 0 },
            r3: Vec4 { x: 0, y: 0, z: 0, w: 1 },
        }
    } else if row == 19 {
        Mat4 {
            r0: Vec4 { x: 0, y: 1, z: 0, w: 0 },
            r1: Vec4 { x: 1, y: 0, z: 0, w: 0 },
            r2: Vec4 { x: 0, y: 0, z: -1i64, w: 0 },
            r3: Vec4 { x: 0, y: 0, z: 0, w: 1 },
        }
    } else if row == 20 {
        Mat4 {
            r0: Vec4 { x: 1, y: 0, z: 0, w: 0 },
            r1: Vec4 { x: 0, y: -1i64, z: 0, w: 0 },
            r2: Vec4 { x: 0, y: 0, z: -1i64, w: 0 },
            r3: Vec4 { x: 0, y: 0, z: 0, w: 1 },
        }
    } else if row == 21 {
        Mat4 {
            r0: Vec4 { x: 1, y: 0, z: 0, w: 0 },
            r1: Vec4 { x: 0, y: 0, z: 1, w: 0 },
            r2: Vec4 { x: 0, y: -1i64, z: 0, w: 0 },
            r3: Vec4 { x: 0, y: 0, z: 0, w: 1 },
        }
    } else {
        Mat4 {
            r0: Vec4 { x: 1, y: 0, z: 0, w: 0 },
            r1: Vec4 { x: 0, y: 0, z: -1i64, w: 0 },
            r2: Vec4 { x: 0, y: 1, z: 0, w: 0 },
            r3: Vec4 { x: 0, y: 0, z: 0, w: 1 },
        }
    }
}

/// Returns conversion matrix `row`.
fn axis_convert_matrix(row: usize) -> (r: Mat4)
    requires
        row < LUT_ROWS,
    ensures
        r == conversion_matrix(row as int),
{
    if row == 0 {
        Mat4 {
            r0: Vec4 { x: -1, y: 0, z: 0, w: 0 },
            r1: Vec4 { x: 0, y: -1, z: 0, w: 0 },
            r2: Vec4 { x: 0, y: 0, z: 1, w: 0 },
            r3: Vec4 { x: 0, y: 0, z: 0, w: 1 },
        }
    } else if row == 1 {
        Mat4 {
            r0: Vec4 { x: -1, y: 0, z: 0, w: 0 },
            r1: Vec4 { x: 0, y: 0, z: -1, w: 0 },
            r2: Vec4 { x: 0, y: -1, z: 0, w: 0 },
            r3: Vec4 { x: 0, y: 0, z: 0, w: 1 },
        }
    } else if row == 2 {
        Mat4 {
            r0: Vec4 { x: -1, y: 0, z: 0, w: 0 },
            r1: Vec4 { x: 0, y: 0, z: 1, w: 0 },
            r2: Vec4 { x: 0, y: 1, z: 0, w: 0 },
            r3: Vec4 { x: 0, y: 0, z: 0, w: 1 },
        }
    } else if row == 3 {
        Mat4 {
            r0: Vec4 { x: -1, y: 0, z: 0, w: 0 },
            r1: Vec4 { x: 0, y: 1, z: 0, w: 0 },
            r2: Vec4 { x: 0, y: 0, z: -1, w: 0 },
            r3: Vec4 { x: 0, y: 0, z: 0, w: 1 },
        }
    } else if row == 4 {
        Mat4 {
            r0: Vec4 { x: 0, y: -1, z: 0, w: 0 },
            r1: Vec4 { x: -1, y: 0, z: 0, w: 0 },
            r2: Vec4 { x: 0, y: 0, z: -1, w: 0 },
            r3: Vec4 { x: 0, y: 0, z: 0, w: 1 },
        }
    } else if row == 5 {
        Mat4 {
            r0: Vec4 { x: 0, y: 0, z: 1, w: 0 },
            r1: Vec4 { x: -1, y: 0, z: 0, w: 0 },
            r2: Vec4 { x: 0, y: -1, z: 0, w: 0 },
            r3: Vec4 { x: 0, y: 0, z: 0, w: 1 },
        }
    } else if row == 6 {
        Mat4 {
            r0: Vec4 { x: 0, y: 0, z: -1, w: 0 },
            r1: Vec4 { x: -1, y: 0, z: 0, w: 0 },
            r2: Vec4 { x: 0, y: 1, z: 0, w: 0 },
            r3: Vec4 { x: 0, y: 0, z: 0, w: 1 },
        }
    } else if row == 7 {
        Mat4 {
            r0: Vec4 { x: 0, y: 1, z: 0, w: 0 },
            r1: Vec4 { x: -1, y: 0, z: 0, w: 0 },
            r2: Vec4 { x: 0, y: 0, z: 1, w: 0 },
            r3: Vec4 { x: 0, y: 0, z: 0, w: 1 },
        }
    } else if row == 8 {
        Mat4 {
            r0: Vec4 { x: 0, y: -1, z: 0, w: 0 },
            r1: Vec4 { x: 0, y: 0, z: 1, w: 0 },
            r2: Vec4 { x: -1, y: 0, z: 0, w: 0 },
            r3: Vec4 { x: 0, y: 0, z: 0, w: 1 },
        }
    } else if row == 9 {
        Mat4 {
            r0: Vec4 { x: 0, y: 0, z: -1, w: 0 },
            r1: Vec4 { x: 0, y: -1, z: 0, w: 0 },
            r2: Vec4 { x: -1, y: 0, z: 0, w: 0 },
            r3: Vec4 { x: 0, y: 0, z: 0, w: 1 },
        }
    } else if row == 10 {
        Mat4 {
            r0: Vec4 { x: 0, y: 0, z: 1, w: 0 },
            r1: Vec4 { x: 0, y: 1, z: 0, w: 0 },
            r2: Vec4 { x: -1, y: 0, z: 0, w: 0 },
            r3: Vec4 { x: 0, y: 0, z: 0, w: 1 },
        }
    } else if row == 11 {
        Mat4 {
            r0: Vec4 { x: 0, y: 1, z: 0, w: 0 },
            r1: Vec4 { x: 0, y: 0, z: -1, w: 0 },
            r2: Vec4 { x: -1, y: 0, z: 0, w: 0 },
            r3: Vec4 { x: 0, y: 0, z: 0, w: 1 },
        }
    } else if row == 12 {
        Mat4 {
            r0: Vec4 { x: 0, y: -1, z: 0, w: 0 },
            r1: Vec4 { x: 0, y: 0, z: -1, w: 0 },
            r2: Vec4 { x: 1, y: 0, z: 0, w: 0 },
            r3: Vec4 { x: 0, y: 0, z: 0, w: 1 },
        }
    } else if row == 13 {
        Mat4 {
            r0: Vec4 { x: 0, y: 0, z: 1, w: 0 },
            r1: Vec4 { x: 0, y: -1, z: 0, w: 0 },
            r2: Vec4 { x: 1, y: 0, z: 0, w: 0 },
            r3: Vec4 { x: 0, y: 0, z: 0, w: 1 },
        }
    } else if row == 14 {
        Mat4 {
            r0: Vec4 { x: 0, y: 0, z: -1, w: 0 },
            r1: Vec4 { x: 0, y: 1, z: 0, w: 0 },
            r2: Vec4 { x: 1, y: 0, z: 0, w: 0 },
            r3: Vec4 { x: 0, y: 0, z: 0, w: 1 },
        }
    } else if row == 15 {
        Mat4 {
            r0: Vec4 { x: 0, y: 1, z: 0, w: 0 },
            r1: Vec4 { x: 0, y: 0, z: 1, w: 0 },
            r2: Vec4 { x: 1, y: 0, z: 0, w: 0 },
            r3: Vec4 { x: 0, y: 0, z: 0, w: 1 },
        }
    } else if row == 16 {
        Mat4 {
            r0: Vec4 { x: 0, y: -1, z: 0, w: 0 },
            r1: Vec4 { x: 1, y: 0, z: 0, w: 0 },
            r2: Vec4 { x: 0, y: 0, z: 1, w: 0 },
            r3: Vec4 { x: 0, y: 0, z: 0, w: 1 },
        }
    } else if row == 17 {
        Mat4 {
            r0: Vec4 { x: 0, y: 0, z: -1, w: 0 },
            r1: Vec4 { x: 1, y: 0, z: 0, w: 0 },
            r2: Vec4 { x: 0, y: -1, z: 0, w: 0 },
            r3: Vec4 { x: 0, y: 0, z: 0, w: 1 },
        }
    } else if row == 18 {
        Mat4 {
            r0: Vec4 { x: 0, y: 0, z: 1, w: 0 },
            r1: Vec4 { x: 1, y: 0, z: 0, w: 0 },
            r2: Vec4 { x: 0, y: 1, z: 0, w: 0 },
            r3: Vec4 { x: 0, y: 0, z: 0, w: 1 },
        }
    } else if row == 19 {
        Mat4 {
            r0: Vec4 { x: 0, y: 1, z: 0, w: 0 },
            r1: Vec4 { x: 1, y: 0, z: 0, w: 0 },
            r2: Vec4 { x: 0, y: 0, z: -1, w: 0 },
            r3: Vec4 { x: 0, y: 0, z: 0, w: 1 },
        }
    } else if row == 20 {
        Mat4 {
            r0: Vec4 { x: 1, y: 0, z: 0, w: 0 },
            r1: Vec4 { x: 0, y: -1, z: 0, w: 0 },
            r2: Vec4 { x: 0, y: 0, z: -1, w: 0 },
            r3: Vec4 { x: 0, y: 0, z: 0, w: 1 },
        }
    } else if row == 21 {
        Mat4 {
            r0: Vec4 { x: 1, y: 0, z: 0, w: 0 },
            r1: Vec4 { x: 0, y: 0, z: 1, w: 0 },
            r2: Vec4 { x: 0, y: -1, z: 0, w: 0 },
            r3: Vec4 { x: 0, y: 0, z: 0, w: 1 },
        }
    } else {
        Mat4 {
            r0: Vec4 { x: 1, y: 0, z: 0, w: 0 },
            r1: Vec4 { x: 0, y: 0, z: -1, w: 0 },
            r2: Vec4 { x: 0, y: 1, z: 0, w: 0 },
            r3: Vec4 { x: 0, y: 0, z: 0, w: 1 },
        }
    }
}

/// Whether `code` is one of the codes in row `row`.
pub open spec fn row_has(row: int, code: int) -> bool {
    exists|k: int| 0 <= k < LUT_COLUMNS && #[trigger] lut_row(row)[k] == code
}

/// The first row of the table that holds `code`, looking from row `from`
/// on, if there is one.
pub open spec fn find_row(code: int, from: int) -> Option<int>
    decreases LUT_ROWS - from,
{
    if from >= LUT_ROWS {
        None
    } else if row_has(from, code) {
        Some(from)
    } else {
        find_row(code, from + 1)
    }
}

/// The matrix that converts between two axis setups, each given by its
/// forward and its up axis: the identity where the setups are the same,
/// nothing where the two axes of a setup are the same or are not
/// perpendicular, and else the matrix of the first table row that holds the
/// conversion's code.
pub open spec fn spec_axis_conversion(
    from_forward: Axis,
    from_up: Axis,
    to_forward: Axis,
    to_up: Axis,
) -> Option<Mat4> {
    if from_forward == to_forward && from_up == to_up {
        Some(Mat4::spec_identity())
    } else if from_forward == from_up || to_forward == to_up {
        None
    } else {
        match find_row(conversion_code(from_forward, from_up, to_forward, to_up), 0) {
            Some(row) => Some(conversion_matrix(row)),
            None => None,
        }
    }
}

/// Tests whether `code` is one of the codes in `row`.
fn row_contains(row: &[u16; 24], code: u16) -> (r: bool)
    ensures
        r == exists|k: int| 0 <= k < LUT_COLUMNS && #[trigger] row@[k] == code,
{
    let mut k: usize = 0;
    while k < 24
        invariant
            k <= 24,
            forall|q: int| 0 <= q < k ==> #[trigger] row@[q] != code,
        decreases 24 - k,
    {
        if row[k] == code {
            return true;
        }
        k = k + 1;
    }
    false
}

/// Converts between axis setups: returns the model matrix that takes an
/// object from the setup with the given forward and up axes to the other,
/// or `None` where no such conversion exists.
///
/// X is positive from screen left to right, Y into the screen, Z from
/// screen bottom to top.
pub fn axis_conversion_matrix(
    from_forward: Axis,
    from_up: Axis,
    to_forward: Axis,
    to_up: Axis,
) -> (r: Option<Mat4>)
    ensures
        r == spec_axis_conversion(from_forward, from_up, to_forward, to_up),
{
    if from_forward == to_forward && from_up == to_up {
        return Some(Mat4::identity());
    }
    if from_forward == from_up || to_forward == to_up {
        return None;
    }
    let value: usize = from_forward.index() + 8 * from_up.index() + 64 * to_forward.index()
        + 512 * to_up.index();
    let code: u16 = value as u16;
    let mut i: usize = 0;
    while i < LUT_ROWS
        invariant
            i <= LUT_ROWS,
            code == conversion_code(from_forward, from_up, to_forward, to_up),
            find_row(code as int, 0) == find_row(code as int, i as int),
        decreases LUT_ROWS - i,
    {
        let axis_lut = axis_convert_lut(i);
        if row_contains(&axis_lut, code) {
            return Some(axis_convert_matrix(i));
        }
        i = i + 1;
    }
    // the forward and up axes are not perpendicular to each other
    None
}

/// The matrix that converts from the setup with Y forward and Z up to the
/// setup with X to the right and Y up, under the right-hand rule.
pub fn axis_conversion_matrix_from_blender() -> (r: Mat4)
    ensures
        Some(r) == spec_axis_conversion(Axis::Y, Axis::Z, Axis::NegZ, Axis::Y),
{
    proof {
        lemma_blender_row();
    }
    axis_conversion_matrix(Axis::Y, Axis::Z, Axis::NegZ, Axis::Y).unwrap()
}

/// The conversion from the setup with Y forward and Z up to the one with
/// -Z forward and Y up is in row 21 of the table, and in none before.
proof fn lemma_blender_row()
    ensures
        find_row(849, 0) == Some(21int),
        conversion_code(Axis::Y, Axis::Z, Axis::NegZ, Axis::Y) == 849,
{
    assert forall|row: int| 0 <= row < 21 implies !#[trigger] row_has(row, 849) by {
        assert forall|k: int| 0 <= k < 24 implies #[trigger] lut_row(row)[k] != 849 by {}
    }
    assert(lut_row(21)[5] == 849);
    assert(row_has(21, 849));
    lemma_find_row_skips(849, 0, 21);
}

/// Looking for a code from row `from` on gives the same as looking from
/// row `to` on, where no row in between holds it.
proof fn lemma_find_row_skips(code: int, from: int, to: int)
    requires
        0 <= from <= to <= LUT_ROWS,
        forall|row: int| from <= row < to ==> !#[trigger] row_has(row, code),
    ensures
        find_row(code, from) == find_row(code, to),
    decreases to - from,
{
    if from < to {
        lemma_find_row_skips(code, from + 1, to);
    }
}

} // verus!

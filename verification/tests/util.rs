use quick_renderer::gl_mesh::GLVert;
use quick_renderer::gpu_utils::{get_screen_plane_vert_list_f32, get_screen_plane_vert_list_f64};
use quick_renderer::mesh::MeshError;
use quick_renderer::meshio::MeshIOError;
use quick_renderer::util::{
    axis_conversion_matrix, axis_conversion_matrix_from_blender, file_magic_is_gzip,
    file_magic_is_zstd, vec2_append_one, vec2_apply_bary_coord, vec2_apply_model_matrix,
    vec3_append_one, vec3_apply_bary_coord, vec3_apply_model_matrix, Axis,
};
use quick_renderer::vector::{dot4_small, Mat4, Vec2, Vec3, Vec4};

#[test]
fn append_one() {
    assert_eq!(vec2_append_one(&Vec2::new(4, 5)), Vec3::new(4, 5, 1));
    assert_eq!(vec3_append_one(&Vec3::new(4, 5, 6)), Vec4::new(4, 5, 6, 1));
}

#[test]
fn model_matrix() {
    let model = Mat4 {
        r0: Vec4::new(2, 0, 0, 10),
        r1: Vec4::new(0, 3, 0, 20),
        r2: Vec4::new(1, 1, 4, 30),
        r3: Vec4::new(0, 0, 0, 1),
    };
    assert_eq!(
        vec3_apply_model_matrix(&Vec3::new(1, 2, 3), &model),
        Vec3::new(12, 26, 45)
    );
    assert_eq!(
        vec2_apply_model_matrix(&Vec2::new(1, 2), &model),
        Vec3::new(12, 26, 33)
    );
    assert_eq!(
        vec3_apply_model_matrix(&Vec3::new(7, -8, 9), &Mat4::identity()),
        Vec3::new(7, -8, 9)
    );
    assert_eq!(
        dot4_small(&Vec4::new(1, 2, 3, 4), &Vec4::new(5, 6, 7, 8)),
        70
    );
}

#[test]
fn bary_coord() {
    let b = Vec3::new(2, 3, 5);
    assert_eq!(
        vec2_apply_bary_coord(&Vec2::new(1, 0), &Vec2::new(0, 1), &Vec2::new(1, 1), &b),
        Vec2::new(7, 8)
    );
    assert_eq!(
        vec3_apply_bary_coord(
            &Vec3::new(1, 0, 0),
            &Vec3::new(0, 1, 0),
            &Vec3::new(0, 0, 1),
            &b
        ),
        Vec3::new(2, 3, 5)
    );
}

#[test]
fn file_magic() {
    assert!(file_magic_is_gzip(&[0x1f, 0x8b, 0x08, 0x00]));
    assert!(!file_magic_is_gzip(&[0x1f, 0x8b, 0x07]));
    assert!(!file_magic_is_gzip(&[0x8b, 0x1f, 0x08]));
    assert!(file_magic_is_zstd(&[0x28, 0xB5, 0x2F, 0xFD]));
    assert!(file_magic_is_zstd(&[0x50, 0x2A, 0x4D, 0x18, 0x00]));
    assert!(file_magic_is_zstd(&[0x5F, 0x2A, 0x4D, 0x18]));
    assert!(!file_magic_is_zstd(&[0x60, 0x2A, 0x4D, 0x18]));
    assert!(!file_magic_is_zstd(&[0x4F, 0x2A, 0x4D, 0x18]));
    assert!(!file_magic_is_zstd(&[0xFD, 0x2F, 0xB5, 0x28]));
    assert!(!file_magic_is_zstd(&[0x1f, 0x8b, 0x08, 0x00]));
}

#[test]
fn axes() {
    let all = Axis::all();
    assert_eq!(
        all,
        vec![Axis::X, Axis::Y, Axis::Z, Axis::NegX, Axis::NegY, Axis::NegZ]
    );
    for (i, axis) in all.iter().enumerate() {
        assert_eq!(axis.index(), i);
        assert_eq!(Axis::from_index(i), Some(*axis));
    }
    assert_eq!(Axis::from_index(6), None);
    let names: Vec<&str> = all.iter().map(|a| a.name()).collect();
    assert_eq!(names, vec!["X", "Y", "Z", "-X", "-Y", "-Z"]);
}

fn mat(rows: [[i64; 3]; 3]) -> Mat4 {
    Mat4 {
        r0: Vec4::new(rows[0][0], rows[0][1], rows[0][2], 0),
        r1: Vec4::new(rows[1][0], rows[1][1], rows[1][2], 0),
        r2: Vec4::new(rows[2][0], rows[2][1], rows[2][2], 0),
        r3: Vec4::new(0, 0, 0, 1),
    }
}

#[test]
fn axis_conversion() {
    assert_eq!(
        axis_conversion_matrix(Axis::Y, Axis::Z, Axis::Y, Axis::Z),
        Some(Mat4::identity())
    );
    // the same setup converts by the identity even where it is no setup
    assert_eq!(
        axis_conversion_matrix(Axis::X, Axis::X, Axis::X, Axis::X),
        Some(Mat4::identity())
    );
    assert_eq!(
        axis_conversion_matrix(Axis::X, Axis::X, Axis::Y, Axis::Z),
        None
    );
    assert_eq!(
        axis_conversion_matrix(Axis::Y, Axis::Z, Axis::Z, Axis::Z),
        None
    );
    // forward and up along the same line
    assert_eq!(
        axis_conversion_matrix(Axis::X, Axis::NegX, Axis::Y, Axis::Z),
        None
    );
    assert_eq!(
        axis_conversion_matrix(Axis::Y, Axis::Z, Axis::NegZ, Axis::Y),
        Some(mat([[1, 0, 0], [0, 0, 1], [0, -1, 0]]))
    );
    assert_eq!(
        axis_conversion_matrix_from_blender(),
        mat([[1, 0, 0], [0, 0, 1], [0, -1, 0]])
    );
    // code 0x8C8 is the first of the first row
    assert_eq!(
        axis_conversion_matrix(Axis::X, Axis::Y, Axis::NegX, Axis::NegY),
        Some(mat([[-1, 0, 0], [0, -1, 0], [0, 0, 1]]))
    );
    // code 0xA65 is the last of the last row
    assert_eq!(
        axis_conversion_matrix(Axis::NegZ, Axis::NegY, Axis::Y, Axis::NegZ),
        Some(mat([[1, 0, 0], [0, 0, -1], [0, 1, 0]]))
    );
    // every pair of setups whose axes are perpendicular converts
    let mut convertible = 0;
    for ff in Axis::all() {
        for fu in Axis::all() {
            for tf in Axis::all() {
                for tu in Axis::all() {
                    if axis_conversion_matrix(ff, fu, tf, tu).is_some() {
                        convertible += 1;
                    }
                }
            }
        }
    }
    // 24 setups: 24 * 24 conversions, and the 12 setups that are none
    // convert to themselves
    assert_eq!(convertible, 24 * 24 + 12);
}

#[test]
fn vertices() {
    let v = GLVert::new(Vec3::new(1, 2, 3), Vec2::new(4, 5), Vec3::new(0, 0, 1));
    assert_eq!(v.pos, Vec3::new(1, 2, 3));
    assert_eq!(v.uv, Vec2::new(4, 5));
    assert_eq!(v.normal, Vec3::new(0, 0, 1));
    let plane = get_screen_plane_vert_list_f32();
    assert_eq!(plane.len(), 6);
    assert_eq!(plane[0], (Vec3::new(1, 1, 0), Vec2::new(1, 1)));
    assert_eq!(plane[1], (Vec3::new(-1, -1, 0), Vec2::new(0, 0)));
    assert_eq!(plane[2], (Vec3::new(-1, 1, 0), Vec2::new(0, 1)));
    assert_eq!(plane[5], (Vec3::new(1, -1, 0), Vec2::new(1, 0)));
    assert_eq!(plane, get_screen_plane_vert_list_f64());
}

#[test]
fn mesh_errors() {
    let e = MeshError::from(MeshIOError::InvalidFile);
    assert!(matches!(e, MeshError::MeshIO(MeshIOError::InvalidFile)));
    assert_eq!(e.message(), "invalid file");
    assert_eq!(MeshError::NoUV.message(), "No UV information found");
    assert_eq!(MeshIOError::Io.message(), "io error");
    assert_eq!(MeshIOError::Unknown.message(), "unknown error");
}

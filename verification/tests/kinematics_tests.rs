use literobo::number::Triple;
use literobo::plan::Step;
use literobo::{KinematicChain, KinematicsError};

type Matrix = [[f64; 3]; 3];
type Vector = [f64; 3];

#[derive(Clone, Copy, Debug, PartialEq)]
struct Pose {
    rotation: Matrix,
    translation: Vector,
}

const IDENTITY: Matrix = [[1.0, 0.0, 0.0], [0.0, 1.0, 0.0], [0.0, 0.0, 1.0]];

fn number(numeral: &[u8]) -> f64 {
    std::str::from_utf8(numeral).unwrap().parse().unwrap()
}

fn vector(t: &Triple) -> Vector {
    [number(&t.x), number(&t.y), number(&t.z)]
}

fn times(a: &Matrix, b: &Matrix) -> Matrix {
    let mut m = [[0.0; 3]; 3];
    for i in 0..3 {
        for j in 0..3 {
            m[i][j] = a[i][0] * b[0][j] + a[i][1] * b[1][j] + a[i][2] * b[2][j];
        }
    }
    m
}

fn apply(a: &Matrix, v: &Vector) -> Vector {
    [
        a[0][0] * v[0] + a[0][1] * v[1] + a[0][2] * v[2],
        a[1][0] * v[0] + a[1][1] * v[1] + a[1][2] * v[2],
        a[2][0] * v[0] + a[2][1] * v[1] + a[2][2] * v[2],
    ]
}

fn compose(a: &Pose, b: &Pose) -> Pose {
    let moved = apply(&a.rotation, &b.translation);
    Pose {
        rotation: times(&a.rotation, &b.rotation),
        translation: [
            a.translation[0] + moved[0],
            a.translation[1] + moved[1],
            a.translation[2] + moved[2],
        ],
    }
}

fn about(axis: &Vector, angle: f64) -> Matrix {
    let n = (axis[0] * axis[0] + axis[1] * axis[1] + axis[2] * axis[2]).sqrt();
    let (x, y, z) = (axis[0] / n, axis[1] / n, axis[2] / n);
    let (s, c) = angle.sin_cos();
    let t = 1.0 - c;
    [
        [c + x * x * t, x * y * t - z * s, x * z * t + y * s],
        [y * x * t + z * s, c + y * y * t, y * z * t - x * s],
        [z * x * t - y * s, z * y * t + x * s, c + z * z * t],
    ]
}

fn roll_pitch_yaw(rpy: &Vector) -> Matrix {
    let x = about(&[1.0, 0.0, 0.0], rpy[0]);
    let y = about(&[0.0, 1.0, 0.0], rpy[1]);
    let z = about(&[0.0, 0.0, 1.0], rpy[2]);
    times(&z, &times(&y, &x))
}

fn unit(axis: &Vector) -> Vector {
    let n = (axis[0] * axis[0] + axis[1] * axis[1] + axis[2] * axis[2]).sqrt();
    [axis[0] / n, axis[1] / n, axis[2] / n]
}

fn pose_of(chain: &KinematicChain, step: &Step, q: &[f64]) -> Pose {
    let joints = chain.joints();
    match *step {
        Step::Origin { joint } => Pose {
            rotation: roll_pitch_yaw(&vector(&joints[joint].origin_rpy)),
            translation: vector(&joints[joint].origin_xyz),
        },
        Step::Rotate { joint, value } => Pose {
            rotation: about(&vector(&joints[joint].axis), q[value]),
            translation: [0.0; 3],
        },
        Step::Translate { joint, value } => {
            let a = unit(&vector(&joints[joint].axis));
            Pose { rotation: IDENTITY, translation: [a[0] * q[value], a[1] * q[value], a[2] * q[value]] }
        }
    }
}

fn product(chain: &KinematicChain, steps: &[Step], q: &[f64]) -> Pose {
    let mut total = Pose { rotation: IDENTITY, translation: [0.0; 3] };
    for step in steps {
        total = compose(&total, &pose_of(chain, step, q));
    }
    total
}

fn forward_kinematics(chain: &KinematicChain, q: &[f64]) -> Result<Pose, KinematicsError> {
    let steps = chain.forward_steps(q.len())?;
    Ok(product(chain, &steps, q))
}

fn cross(a: &Vector, b: &Vector) -> Vector {
    [a[1] * b[2] - a[2] * b[1], a[2] * b[0] - a[0] * b[2], a[0] * b[1] - a[1] * b[0]]
}

/// The Jacobian, column by column: three linear entries, then three angular ones.
fn jacobian(chain: &KinematicChain, q: &[f64]) -> Result<Vec<[f64; 6]>, KinematicsError> {
    let columns = chain.jacobian_columns(q.len())?;
    let steps = chain.forward_steps(q.len())?;
    let end = product(chain, &steps, q).translation;
    let mut out = Vec::new();
    for column in &columns {
        let frame = product(chain, &steps[..column.frame], q);
        let a = apply(&frame.rotation, &unit(&vector(&chain.joints()[column.joint].axis)));
        if column.rotary {
            let arm = [
                end[0] - frame.translation[0],
                end[1] - frame.translation[1],
                end[2] - frame.translation[2],
            ];
            let l = cross(&a, &arm);
            out.push([l[0], l[1], l[2], a[0], a[1], a[2]]);
        } else {
            out.push([a[0], a[1], a[2], 0.0, 0.0, 0.0]);
        }
    }
    Ok(out)
}

fn close(a: f64, b: f64, tolerance: f64) -> bool {
    (a - b).abs() <= tolerance
}

fn assert_matrix(a: &Matrix, b: &Matrix, tolerance: f64) {
    for i in 0..3 {
        for j in 0..3 {
            assert!(close(a[i][j], b[i][j], tolerance), "{:?} is not {:?}", a, b);
        }
    }
}

fn assert_vector(a: &Vector, b: &Vector, tolerance: f64) {
    for i in 0..3 {
        assert!(close(a[i], b[i], tolerance), "{:?} is not {:?}", a, b);
    }
}

fn load(text: &str, base: &str, end: &str) -> KinematicChain {
    KinematicChain::from_urdf_str(text, base.to_string(), end.to_string()).unwrap()
}

const TURN: &str = r#"<robot><link name="a"/><link name="b"/>
  <joint name="j" type="revolute"><parent link="a"/><child link="b"/><axis xyz="0 0 1"/></joint>
</robot>"#;

const SLIDE: &str = r#"<robot><link name="a"/><link name="b"/>
  <joint name="j" type="prismatic"><parent link="a"/><child link="b"/><axis xyz="1 0 0"/></joint>
</robot>"#;

const ARM: &str = r#"<robot>
  <link name="base"/><link name="upper"/><link name="lower"/><link name="tool"/>
  <joint name="shoulder" type="revolute">
    <parent link="base"/><child link="upper"/>
    <origin xyz="0 0 0.5" rpy="0 0 1.5707963267948966"/>
    <axis xyz="0 0 1"/>
  </joint>
  <joint name="elbow" type="continuous">
    <parent link="upper"/><child link="lower"/>
    <origin xyz="1 0 0"/>
    <axis xyz="0 1 0"/>
  </joint>
  <joint name="mount" type="fixed">
    <parent link="lower"/><child link="tool"/>
    <origin xyz="0 0.25 0"/>
  </joint>
</robot>"#;

#[test]
fn zero_values_give_the_product_of_the_origins() {
    let chain = load(ARM, "base", "tool");
    let pose = forward_kinematics(&chain, &[0.0, 0.0]).unwrap();
    assert_vector(&pose.translation, &[-0.25, 1.0, 0.5], 1e-12);
    assert_matrix(&pose.rotation, &[[0.0, -1.0, 0.0], [1.0, 0.0, 0.0], [0.0, 0.0, 1.0]], 1e-12);
}

#[test]
fn revolute_joint_turns_about_its_axis() {
    let chain = load(TURN, "a", "b");
    for angle in [0.0, std::f64::consts::FRAC_PI_2, std::f64::consts::PI] {
        let pose = forward_kinematics(&chain, &[angle]).unwrap();
        let (s, c) = angle.sin_cos();
        assert_matrix(&pose.rotation, &[[c, -s, 0.0], [s, c, 0.0], [0.0, 0.0, 1.0]], 1e-12);
        assert_vector(&pose.translation, &[0.0, 0.0, 0.0], 0.0);
        let moved = apply(&pose.rotation, &[1.0, 0.0, 0.0]);
        assert_vector(&moved, &[c, s, 0.0], 1e-12);
    }
}

#[test]
fn prismatic_joint_slides_along_its_axis() {
    let chain = load(SLIDE, "a", "b");
    for distance in [0.0, 0.75, -2.5] {
        let pose = forward_kinematics(&chain, &[distance]).unwrap();
        assert_eq!(pose.translation, [distance, 0.0, 0.0]);
        assert_eq!(pose.rotation, IDENTITY);
    }
}

#[test]
fn jacobian_of_a_slide_is_its_axis() {
    let chain = load(SLIDE, "a", "b");
    assert_eq!(jacobian(&chain, &[0.4]).unwrap(), vec![[1.0, 0.0, 0.0, 0.0, 0.0, 0.0]]);
}

#[test]
fn last_revolute_column_is_axis_cross_arm() {
    let chain = load(ARM, "base", "tool");
    let q = [0.3, -0.7];
    let columns = jacobian(&chain, &q).unwrap();
    assert_eq!(columns.len(), 2);
    let steps = chain.forward_steps(2).unwrap();
    let end = product(&chain, &steps, &q).translation;
    // The elbow's frame: both origins and the shoulder's turn.
    let frame = product(&chain, &steps[..3], &q);
    let axis = apply(&frame.rotation, &[0.0, 1.0, 0.0]);
    let arm = [
        end[0] - frame.translation[0],
        end[1] - frame.translation[1],
        end[2] - frame.translation[2],
    ];
    let expected = cross(&axis, &arm);
    assert_vector(&[columns[1][0], columns[1][1], columns[1][2]], &expected, 1e-12);
    assert_vector(&[columns[1][3], columns[1][4], columns[1][5]], &axis, 1e-12);
}

#[test]
fn jacobian_agrees_with_finite_differences() {
    let chain = load(ARM, "base", "tool");
    let q = [0.3, -0.7];
    let columns = jacobian(&chain, &q).unwrap();
    let here = forward_kinematics(&chain, &q).unwrap().translation;
    let step = 1e-6;
    for i in 0..2 {
        let mut moved = q;
        moved[i] += step;
        let there = forward_kinematics(&chain, &moved).unwrap().translation;
        for k in 0..3 {
            let slope = (there[k] - here[k]) / step;
            assert!(close(slope, columns[i][k], 1e-5), "column {} row {}", i, k);
        }
    }
}

#[test]
fn evaluators_refuse_a_wrong_number_of_values() {
    let chain = load(ARM, "base", "tool");
    for q in [&[][..], &[0.1][..], &[0.1, 0.2, 0.3][..]] {
        assert!(matches!(
            forward_kinematics(&chain, q),
            Err(KinematicsError::DimensionMismatch { expected: 2, got }) if got == q.len()
        ));
        assert!(matches!(
            jacobian(&chain, q),
            Err(KinematicsError::DimensionMismatch { expected: 2, got }) if got == q.len()
        ));
    }
}

#[test]
fn forward_kinematics_is_repeatable() {
    let chain = load(ARM, "base", "tool");
    let q = [0.123456789, -2.5];
    let first = forward_kinematics(&chain, &q).unwrap();
    let second = forward_kinematics(&chain, &q).unwrap();
    for i in 0..3 {
        assert_eq!(first.translation[i].to_bits(), second.translation[i].to_bits());
        for j in 0..3 {
            assert_eq!(first.rotation[i][j].to_bits(), second.rotation[i][j].to_bits());
        }
    }
}

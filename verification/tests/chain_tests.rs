use literobo::plan::{Column, Step};
use literobo::{KinematicChain, KinematicsError, ParseError};

const TREE: &str = r#"<robot name="tree">
  <link name="base"/>
  <link name="upper"/>
  <link name="lower"/>
  <link name="slider"/>
  <link name="tool"/>
  <link name="camera"/>
  <joint name="shoulder" type="revolute">
    <parent link="base"/><child link="upper"/>
    <axis xyz="0 0 1"/>
  </joint>
  <joint name="head" type="fixed">
    <parent link="base"/><child link="camera"/>
  </joint>
  <joint name="bracket" type="fixed">
    <parent link="upper"/><child link="lower"/>
  </joint>
  <joint name="slide" type="prismatic">
    <parent link="lower"/><child link="slider"/>
  </joint>
  <joint name="wrist" type="continuous">
    <parent link="slider"/><child link="tool"/>
  </joint>
</robot>"#;

fn chain(base: &str, end: &str) -> Result<KinematicChain, KinematicsError> {
    KinematicChain::from_urdf_str(TREE, base.to_string(), end.to_string())
}

fn names(chain: &KinematicChain) -> Vec<String> {
    chain.joints().iter().map(|j| String::from_utf8(j.name.clone()).unwrap()).collect()
}

#[test]
fn extracts_joints_from_base_to_end() {
    let c = chain("base", "tool").unwrap();
    assert_eq!(names(&c), vec!["shoulder", "bracket", "slide", "wrist"]);
    assert_eq!(c.joint_ids(), &vec![0, 2, 3, 4]);
}

#[test]
fn counts_degrees_of_freedom() {
    assert_eq!(chain("base", "tool").unwrap().dof(), 3);
    assert_eq!(chain("base", "camera").unwrap().dof(), 0);
    assert_eq!(chain("upper", "slider").unwrap().dof(), 1);
}

#[test]
fn chain_starts_anywhere_on_the_way() {
    let c = chain("lower", "tool").unwrap();
    assert_eq!(names(&c), vec!["slide", "wrist"]);
}

#[test]
fn chain_from_a_link_to_itself_is_empty() {
    let c = chain("lower", "lower").unwrap();
    assert_eq!(c.joints().len(), 0);
    assert_eq!(c.dof(), 0);
    assert_eq!(c.forward_steps(0).unwrap(), vec![]);
}

#[test]
fn each_joint_continues_where_the_last_ended() {
    let c = chain("base", "tool").unwrap();
    let joints = c.joints();
    for i in 0..joints.len() - 1 {
        assert_eq!(joints[i].child, joints[i + 1].parent);
    }
}

#[test]
fn reversed_path_is_no_path() {
    match chain("tool", "base") {
        Err(KinematicsError::NoPathFound { base, end }) => {
            assert_eq!(base, "tool");
            assert_eq!(end, "base");
        }
        other => panic!("{:?}", other),
    }
}

#[test]
fn path_over_a_common_ancestor_is_no_path() {
    assert!(matches!(chain("camera", "tool"), Err(KinematicsError::NoPathFound { .. })));
    assert!(matches!(chain("tool", "camera"), Err(KinematicsError::NoPathFound { .. })));
}

#[test]
fn unknown_base_link_is_not_found() {
    match chain("pedestal", "tool") {
        Err(KinematicsError::LinkNotFound { name }) => assert_eq!(name, "pedestal"),
        other => panic!("{:?}", other),
    }
}

#[test]
fn unknown_end_link_is_not_found() {
    match chain("base", "gripper") {
        Err(KinematicsError::LinkNotFound { name }) => assert_eq!(name, "gripper"),
        other => panic!("{:?}", other),
    }
}

#[test]
fn unknown_base_is_reported_before_unknown_end() {
    match chain("pedestal", "gripper") {
        Err(KinematicsError::LinkNotFound { name }) => assert_eq!(name, "pedestal"),
        other => panic!("{:?}", other),
    }
}

#[test]
fn joint_names_are_not_link_names() {
    assert!(matches!(chain("base", "wrist"), Err(KinematicsError::LinkNotFound { .. })));
}

#[test]
fn refused_description_is_a_parse_error() {
    let r = KinematicChain::from_urdf_str("<robot>", "base".to_string(), "tool".to_string());
    assert!(matches!(r, Err(KinematicsError::Parse(ParseError::Malformed))));
    let r = KinematicChain::from_urdf_str(
        "<robot><link/></robot>",
        "base".to_string(),
        "tool".to_string(),
    );
    assert!(matches!(r, Err(KinematicsError::Parse(ParseError::MissingAttribute))));
}

#[test]
fn forward_steps_follow_the_chain() {
    let c = chain("base", "tool").unwrap();
    assert_eq!(
        c.forward_steps(3).unwrap(),
        vec![
            Step::Origin { joint: 0 },
            Step::Rotate { joint: 0, value: 0 },
            Step::Origin { joint: 1 },
            Step::Origin { joint: 2 },
            Step::Translate { joint: 2, value: 1 },
            Step::Origin { joint: 3 },
            Step::Rotate { joint: 3, value: 2 },
        ]
    );
}

#[test]
fn jacobian_columns_follow_the_actuated_joints() {
    let c = chain("base", "tool").unwrap();
    assert_eq!(
        c.jacobian_columns(3).unwrap(),
        vec![
            Column { joint: 0, frame: 1, rotary: true },
            Column { joint: 2, frame: 4, rotary: false },
            Column { joint: 3, frame: 6, rotary: true },
        ]
    );
}

#[test]
fn column_frames_point_at_the_motion_steps() {
    let c = chain("base", "tool").unwrap();
    let steps = c.forward_steps(3).unwrap();
    let columns = c.jacobian_columns(3).unwrap();
    assert_eq!(columns.len(), c.dof());
    assert_eq!(steps.len(), c.joints().len() + c.dof());
    for (k, column) in columns.iter().enumerate() {
        match steps[column.frame] {
            Step::Rotate { joint, value } => {
                assert!(column.rotary);
                assert_eq!((joint, value), (column.joint, k));
            }
            Step::Translate { joint, value } => {
                assert!(!column.rotary);
                assert_eq!((joint, value), (column.joint, k));
            }
            Step::Origin { .. } => panic!("a column points at an origin"),
        }
    }
}

#[test]
fn wrong_number_of_values_is_a_dimension_mismatch() {
    let c = chain("base", "tool").unwrap();
    for got in [0usize, 1, 2, 4, 100] {
        match c.forward_steps(got) {
            Err(KinematicsError::DimensionMismatch { expected, got: g }) => {
                assert_eq!((expected, g), (3, got));
            }
            other => panic!("{:?}", other),
        }
        match c.jacobian_columns(got) {
            Err(KinematicsError::DimensionMismatch { expected, got: g }) => {
                assert_eq!((expected, g), (3, got));
            }
            other => panic!("{:?}", other),
        }
    }
}

#[test]
fn chain_without_actuated_joints_takes_no_values() {
    let c = chain("base", "camera").unwrap();
    assert_eq!(c.forward_steps(0).unwrap(), vec![Step::Origin { joint: 0 }]);
    assert_eq!(c.jacobian_columns(0).unwrap(), vec![]);
    assert!(matches!(
        c.forward_steps(1),
        Err(KinematicsError::DimensionMismatch { expected: 0, got: 1 })
    ));
}

#[test]
fn same_input_gives_same_steps() {
    let a = chain("base", "tool").unwrap();
    let b = chain("base", "tool").unwrap();
    assert_eq!(a.forward_steps(3).unwrap(), b.forward_steps(3).unwrap());
    assert_eq!(a.forward_steps(3).unwrap(), a.forward_steps(3).unwrap());
    assert_eq!(a.jacobian_columns(3).unwrap(), a.jacobian_columns(3).unwrap());
}

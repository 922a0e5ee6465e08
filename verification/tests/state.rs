use awari::ra::{State, Status};

#[test]
fn new_state_is_unstable() {
    let s = State::new(-5, 3);
    assert_eq!(s.status(), Status::Unstable(-5, 3));
    assert_eq!(s.value(), -5);
    assert!(!s.is_stable());
    let s = State::new(7, 0);
    assert_eq!(s.status(), Status::Unstable(7, 0));
}

#[test]
fn stable_state() {
    let s = State::stable(4);
    assert_eq!(s.status(), Status::Stable(4));
    assert_eq!(s.value(), 4);
    assert!(s.is_stable());
}

#[test]
fn default_state_awaits_nothing() {
    assert_eq!(State::default().status(), Status::Unstable(i8::MIN, 0));
}

#[test]
fn update_leaves_a_stable_state() {
    let mut s = State::stable(2);
    assert_eq!(s.update(-6, 6), None);
    assert_eq!(s.status(), Status::Stable(2));
    assert_eq!(s.update(6, 6), None);
    assert_eq!(s.status(), Status::Stable(2));
}

#[test]
fn update_with_the_last_successor() {
    let mut s = State::new(-4, 1);
    assert_eq!(s.update(-2, 6), Some(2));
    assert_eq!(s.status(), Status::Stable(2));
    let mut s = State::new(0, 1);
    assert_eq!(s.update(2, 6), Some(0));
    assert_eq!(s.status(), Status::Stable(0));
}

#[test]
fn update_when_nothing_is_awaited() {
    let mut s = State::new(-4, 0);
    assert_eq!(s.update(-2, 6), Some(2));
    assert_eq!(s.status(), Status::Stable(2));
}

#[test]
fn update_reaches_the_saturation_level() {
    let mut s = State::new(-4, 3);
    assert_eq!(s.update(-6, 6), Some(6));
    assert_eq!(s.status(), Status::Stable(6));
    let mut s = State::new(6, 3);
    assert_eq!(s.update(4, 6), Some(6));
    assert_eq!(s.status(), Status::Stable(6));
}

#[test]
fn update_counts_down_and_raises_the_bound() {
    let mut s = State::new(-4, 3);
    assert_eq!(s.update(2, 6), None);
    assert_eq!(s.status(), Status::Unstable(-2, 2));
    assert_eq!(s.update(4, 6), None);
    assert_eq!(s.status(), Status::Unstable(-2, 1));
    assert_eq!(s.update(0, 6), Some(0));
    assert_eq!(s.status(), Status::Stable(0));
    assert_eq!(s.update(-6, 6), None);
    assert_eq!(s.status(), Status::Stable(0));
}

#[test]
fn update_never_lowers_the_bound() {
    for b in -8..=8i8 {
        for r in 0..6u8 {
            for up in -8..=8i8 {
                let mut s = State::new(b, r);
                let res = s.update(up, 8);
                match s.status() {
                    Status::Unstable(b2, r2) => {
                        assert!(b2 >= b);
                        assert_eq!(r2, r - 1);
                        assert_eq!(res, None);
                    }
                    Status::Stable(v) => {
                        assert!(v >= b);
                        assert_eq!(res, Some(v));
                    }
                }
                // a second report changes nothing once the state is stable
                if s.is_stable() {
                    let before = s;
                    assert_eq!(s.update(up, 8), None);
                    assert_eq!(s, before);
                }
            }
        }
    }
}

#[test]
fn try_stabilize_at_the_saturation_level() {
    let mut s = State::new(6, 2);
    assert_eq!(s.try_stabilize(6), Some(6));
    assert_eq!(s.status(), Status::Stable(6));
    // once more: nothing happens
    assert_eq!(s.try_stabilize(6), None);
    assert_eq!(s.status(), Status::Stable(6));
}

#[test]
fn try_stabilize_when_nothing_is_awaited() {
    let mut s = State::new(-6, 0);
    assert_eq!(s.try_stabilize(6), Some(-6));
    assert_eq!(s.status(), Status::Stable(-6));
}

#[test]
fn try_stabilize_waits() {
    let mut s = State::new(2, 2);
    assert_eq!(s.try_stabilize(6), None);
    assert_eq!(s.status(), Status::Unstable(2, 2));
    assert_eq!(s.try_stabilize(4), None);
    assert_eq!(s.try_stabilize(2), Some(2));
}

#[test]
fn try_stabilize_at_level_zero() {
    let mut s = State::new(-2, 2);
    assert_eq!(s.try_stabilize(0), None);
    assert_eq!(s.status(), Status::Stable(0));
    let mut s = State::stable(-4);
    assert_eq!(s.try_stabilize(0), None);
    assert_eq!(s.status(), Status::Stable(-4));
}

#[test]
fn serialize_examples() {
    assert_eq!(State::stable(0).serialize(), [0, 0]);
    assert_eq!(State::stable(5).serialize(), [5, 0]);
    assert_eq!(State::stable(-1).serialize(), [255, 0]);
    assert_eq!(State::stable(-128).serialize(), [128, 0]);
    assert_eq!(State::new(-32, 0).serialize(), [224, 1]);
    assert_eq!(State::new(7, 3).serialize(), [7, 4]);
    assert_eq!(State::new(127, 254).serialize(), [127, 255]);
}

#[test]
fn deserialize_examples() {
    assert_eq!(State::deserialize([0, 0]).status(), Status::Stable(0));
    assert_eq!(State::deserialize([255, 0]).status(), Status::Stable(-1));
    assert_eq!(State::deserialize([224, 1]).status(), Status::Unstable(-32, 0));
    assert_eq!(State::deserialize([7, 4]).status(), Status::Unstable(7, 3));
}

#[test]
fn serialize_then_deserialize() {
    for v in i8::MIN..=i8::MAX {
        let s = State::stable(v);
        assert_eq!(State::deserialize(s.serialize()), s);
        for n in [0u8, 1, 2, 100, 254] {
            let s = State::new(v, n);
            assert_eq!(State::deserialize(s.serialize()), s);
        }
    }
    for a in 0..=255u8 {
        for b in 0..=255u8 {
            assert_eq!(State::deserialize([a, b]).serialize(), [a, b]);
        }
    }
}

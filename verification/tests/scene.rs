use ha5::hit::{Hit, HitList, HitRecord};
use ha5::ray::Ray;
use ha5::scalar::Scalar;
use ha5::vec3::Vec3;

fn s(x: f32) -> Scalar {
    Scalar::from_bits(x.to_bits())
}

fn f(x: Scalar) -> f32 {
    f32::from_bits(x.to_bits())
}

fn v(x: f32, y: f32, z: f32) -> Vec3 {
    Vec3::new(s(x), s(y), s(z))
}

/// A plane across the z axis at distance `at` from the origin, for rays that
/// run down the z axis from the origin.
struct Wall {
    at: f32,
}

impl Hit for Wall {
    fn spec_hit(&self, r: Ray, t_min: Scalar, t_max: Scalar) -> Option<HitRecord> {
        self.hit(&r, t_min, t_max)
    }

    fn hit(&self, _r: &Ray, t_min: Scalar, t_max: Scalar) -> Option<HitRecord> {
        if f(t_min) < self.at && self.at < f(t_max) {
            Some(HitRecord { t: s(self.at), p: v(0.0, 0.0, -self.at), normal: v(0.0, 0.0, 1.0) })
        } else {
            None
        }
    }
}

fn down_z() -> Ray {
    Ray::new(v(0.0, 0.0, 0.0), v(0.0, 0.0, -1.0))
}

#[test]
fn empty_scene_reports_nothing() {
    let list: HitList = HitList::default();
    assert_eq!(list.hit(&down_z(), s(0.0), s(f32::MAX)), None);
}

#[test]
fn nearest_of_three_in_every_order() {
    let a = Wall { at: 1.0 };
    let b = Wall { at: 2.5 };
    let c = Wall { at: 4.0 };
    let orders: [[&dyn Hit; 3]; 6] =
        [[&a, &b, &c], [&a, &c, &b], [&b, &a, &c], [&b, &c, &a], [&c, &a, &b], [&c, &b, &a]];
    for order in orders.iter() {
        let mut list: HitList = HitList::default();
        for member in order.iter() {
            list.push(*member);
        }
        let rec = list.hit(&down_z(), s(0.0), s(f32::MAX)).unwrap();
        assert_eq!(f(rec.t), 1.0);
        assert_eq!(rec.p, v(0.0, 0.0, -1.0));
        assert_eq!(rec.normal, v(0.0, 0.0, 1.0));
    }
}

#[test]
fn push_adds_at_the_end() {
    let a = Wall { at: 1.0 };
    let b = Wall { at: 2.0 };
    let mut list: HitList = HitList::default();
    assert_eq!(list.vec.len(), 0);
    list.push(&a);
    assert_eq!(list.vec.len(), 1);
    list.push(&b);
    assert_eq!(list.vec.len(), 2);
    assert_eq!(f(list.vec[0].hit(&down_z(), s(0.0), s(10.0)).unwrap().t), 1.0);
    assert_eq!(f(list.vec[1].hit(&down_z(), s(0.0), s(10.0)).unwrap().t), 2.0);
}

#[test]
fn the_interval_is_open_at_both_ends() {
    let a = Wall { at: 1.0 };
    let b = Wall { at: 3.0 };
    let mut list: HitList = HitList::default();
    list.push(&a);
    list.push(&b);
    assert_eq!(f(list.hit(&down_z(), s(1.0), s(10.0)).unwrap().t), 3.0);
    assert_eq!(list.hit(&down_z(), s(1.0), s(3.0)), None);
    assert_eq!(list.hit(&down_z(), s(3.0), s(10.0)), None);
    assert_eq!(f(list.hit(&down_z(), s(0.5), s(3.0)).unwrap().t), 1.0);
}

/// A surface that counts as a crossing whatever the interval is, and notes
/// the upper end that it was asked with.
struct Probe {
    at: f32,
    asked: std::cell::RefCell<Vec<f32>>,
}

impl Hit for Probe {
    fn spec_hit(&self, r: Ray, t_min: Scalar, t_max: Scalar) -> Option<HitRecord> {
        self.hit(&r, t_min, t_max)
    }

    fn hit(&self, _r: &Ray, _t_min: Scalar, t_max: Scalar) -> Option<HitRecord> {
        self.asked.borrow_mut().push(f(t_max));
        if self.at < f(t_max) {
            Some(HitRecord { t: s(self.at), p: v(0.0, 0.0, -self.at), normal: v(0.0, 0.0, 1.0) })
        } else {
            None
        }
    }
}

#[test]
fn each_member_is_asked_below_the_closest_so_far() {
    let a = Probe { at: 5.0, asked: std::cell::RefCell::new(Vec::new()) };
    let b = Probe { at: 7.0, asked: std::cell::RefCell::new(Vec::new()) };
    let c = Probe { at: 2.0, asked: std::cell::RefCell::new(Vec::new()) };
    let d = Probe { at: 2.0, asked: std::cell::RefCell::new(Vec::new()) };
    let mut list: HitList<Probe> = HitList::default();
    list.push(&a);
    list.push(&b);
    list.push(&c);
    list.push(&d);
    let rec = list.hit(&down_z(), s(0.0), s(100.0)).unwrap();
    assert_eq!(f(rec.t), 2.0);
    assert_eq!(*a.asked.borrow(), vec![100.0]);
    assert_eq!(*b.asked.borrow(), vec![5.0]);
    assert_eq!(*c.asked.borrow(), vec![5.0]);
    assert_eq!(*d.asked.borrow(), vec![2.0]);
}

#[test]
fn a_scene_can_be_a_member_of_a_scene() {
    let a = Wall { at: 4.0 };
    let b = Wall { at: 2.0 };
    let c = Wall { at: 3.0 };
    let mut inner: HitList = HitList::default();
    inner.push(&a);
    inner.push(&b);
    let mut outer: HitList = HitList::default();
    outer.push(&c);
    outer.push(&inner);
    assert_eq!(f(outer.hit(&down_z(), s(0.0), s(10.0)).unwrap().t), 2.0);
    assert_eq!(f(outer.hit(&down_z(), s(2.0), s(10.0)).unwrap().t), 3.0);
    assert_eq!(f(outer.hit(&down_z(), s(3.0), s(10.0)).unwrap().t), 4.0);
    assert_eq!(outer.hit(&down_z(), s(4.0), s(10.0)), None);
}

#[test]
fn hit_record_new_makes_a_vector() {
    let got = HitRecord::new(s(1.0), s(2.0), s(3.0));
    assert_eq!(got, v(1.0, 2.0, 3.0));
}

use ha5::hit::{Hit, HitList};
use ha5::image::Color;
use ha5::ray::Ray;
use ha5::render::create_image;
use ha5::scalar::Scalar;
use ha5::vec3::Vec3;

fn s(x: f32) -> Scalar {
    Scalar::from_bits(x.to_bits())
}

fn v(x: f32, y: f32, z: f32) -> Vec3 {
    Vec3::new(s(x), s(y), s(z))
}

#[test]
fn every_cell_holds_the_color_of_its_own_answer() {
    let image = create_image(4, 3, |x, y| v(x as f32 / 4.0, y as f32 / 3.0, 1.0));
    assert_eq!(image.width, 4);
    assert_eq!(image.height, 3);
    assert_eq!(image.pixels.len(), 12);
    for y in 0..3u32 {
        for x in 0..4u32 {
            let expected = Color {
                r: (255.99 * (x as f32 / 4.0)) as u8,
                g: (255.99 * (y as f32 / 3.0)) as u8,
                b: 255,
            };
            assert_eq!(image[(x, y)], expected);
            assert_eq!(image.pixels[(x + y * 4) as usize], expected);
        }
    }
}

#[test]
fn cells_are_asked_row_by_row() {
    let asked = std::cell::RefCell::new(Vec::new());
    create_image(3, 2, |x, y| {
        asked.borrow_mut().push((x, y));
        v(0.0, 0.0, 0.0)
    });
    assert_eq!(asked.into_inner(), vec![(0, 0), (1, 0), (2, 0), (0, 1), (1, 1), (2, 1)]);
}

#[test]
fn no_cells_no_questions() {
    let image = create_image(0, 0, |_, _| -> Vec3 { unreachable!() });
    assert_eq!(image.pixels.len(), 0);
}

/// The background: white at the bottom of the view, blue at the top.
fn sky(direction: [f32; 3]) -> [f32; 3] {
    let length = (direction[0] * direction[0] + direction[1] * direction[1]
        + direction[2] * direction[2])
        .sqrt();
    let t = 0.5 * (direction[1] / length + 1.0);
    [(1.0 - t) + 0.5 * t, (1.0 - t) + 0.7 * t, (1.0 - t) + t]
}

#[test]
fn an_empty_scene_shows_the_sky_in_every_cell() {
    let world: HitList = HitList::default();
    let direction = |x: u32, y: u32| -> [f32; 3] {
        let u = (x as f32 + 0.5) / 8.0;
        let w = (y as f32 + 0.5) / 4.0;
        [-2.0 + 4.0 * u, -1.0 + 2.0 * w, -1.0]
    };
    let image = create_image(8, 4, |x, y| {
        let d = direction(x, y);
        let ray = Ray::new(v(0.0, 0.0, 0.0), v(d[0], d[1], d[2]));
        assert!(world.hit(&ray, s(0.0), s(f32::MAX)).is_none());
        let c = sky(d);
        v(c[0].sqrt(), c[1].sqrt(), c[2].sqrt())
    });
    for y in 0..4u32 {
        for x in 0..8u32 {
            let c = sky(direction(x, y));
            let expected = Color {
                r: (255.99 * c[0].sqrt()) as u8,
                g: (255.99 * c[1].sqrt()) as u8,
                b: (255.99 * c[2].sqrt()) as u8,
            };
            assert_eq!(image[(x, y)], expected);
        }
    }
    assert_eq!(image[(0, 3)].b, 255);
}

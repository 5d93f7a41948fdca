use parlay::geometry::{ParsePointError, Point, Ray, Triangles, Vector};

#[test]
fn vector_keeps_its_coordinates() {
    let v = Vector::new([3, 4, 5]);
    assert_eq!(v[0], 3);
    assert_eq!(v[1], 4);
    assert_eq!(v[2], 5);
}

#[test]
fn point_keeps_and_replaces_its_coordinates() {
    let mut p = Point::new([1u64, 2]);
    assert_eq!(p[0], 1);
    assert_eq!(p[1], 2);
    p.set(1, 9);
    assert_eq!(p, Point::new([1, 9]));
    assert_ne!(p, Point::new([1, 2]));
}

#[test]
fn triangles_count_points_and_triangles() {
    let mesh = Triangles::new(
        vec![Point::new([0, 0]), Point::new([1, 0]), Point::new([0, 1]), Point::new([1, 1])],
        vec![[0, 1, 2], [1, 3, 2]],
    );
    assert_eq!(mesh.num_points(), 4);
    assert_eq!(mesh.num_triangles(), 2);
    assert_eq!(mesh.t[1], [1, 3, 2]);
}

#[test]
fn ray_keeps_origin_and_direction() {
    let ray = Ray::new(Point::new([1, 2, 3]), Vector::new([0, 0, 1]));
    assert_eq!(ray.o, Point::new([1, 2, 3]));
    assert_eq!(ray.d[2], 1);
}

#[test]
fn parse_point_error_names_the_dimension() {
    assert_eq!(ParsePointError::<2>.message(), "Can not parse as Point2d.");
    assert_eq!(ParsePointError::<13>.message(), "Can not parse as Point13d.");
}

#[test]
fn length_squared_adds_the_squares() {
    assert_eq!(Vector::new([3u64, 4]).length_squared(), 25);
    assert_eq!(Vector::new([1u64, 2, 3]).length_squared(), 14);
    assert_eq!(Vector::<0, u64>::new([]).length_squared(), 0);
}

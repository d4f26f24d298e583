use quadtree::{Point, Quadrant, Region};

#[test]
fn region_contains_its_edges() {
    let region = Region::new(0, 0, 100, 50);
    assert!(region.contains(Point::new(0, 0)));
    assert!(region.contains(Point::new(100, 0)));
    assert!(region.contains(Point::new(0, 50)));
    assert!(region.contains(Point::new(100, 50)));
    assert!(region.contains(Point::new(37, 21)));
}

#[test]
fn region_rejects_what_lies_beyond_an_edge() {
    let region = Region::new(0, 0, 100, 50);
    assert!(!region.contains(Point::new(-1, 10)));
    assert!(!region.contains(Point::new(101, 10)));
    assert!(!region.contains(Point::new(10, -1)));
    assert!(!region.contains(Point::new(10, 51)));
}

#[test]
fn region_with_negative_origin() {
    let region = Region::new(-640, -360, 1280, 720);
    assert!(region.contains(Point::new(-640, -360)));
    assert!(region.contains(Point::new(640, 360)));
    assert!(region.contains(Point::new(0, 0)));
    assert!(!region.contains(Point::new(641, 0)));
    assert!(!region.contains(Point::new(0, -361)));
}

#[test]
fn region_at_the_ends_of_the_coordinate_range() {
    let whole = Region::new(i32::MIN, i32::MIN, u32::MAX, u32::MAX);
    assert!(whole.fits());
    assert!(whole.contains(Point::new(i32::MIN, i32::MAX)));
    assert!(whole.contains(Point::new(i32::MAX, i32::MIN)));
    let beyond = Region::new(1, 0, i32::MAX as u32, 10);
    assert!(!beyond.fits());
    let high = Region::new(0, 1, 10, i32::MAX as u32);
    assert!(!high.fits());
    assert!(Region::new(0, 0, i32::MAX as u32, i32::MAX as u32).fits());
}

#[test]
fn quarters_of_an_even_region_share_their_edges() {
    let region = Region::new(0, 0, 100, 100);
    assert_eq!(region.quarter(Quadrant::NorthWest), Region::new(0, 0, 50, 50));
    assert_eq!(region.quarter(Quadrant::NorthEast), Region::new(50, 0, 50, 50));
    assert_eq!(region.quarter(Quadrant::SouthWest), Region::new(0, 50, 50, 50));
    assert_eq!(region.quarter(Quadrant::SouthEast), Region::new(50, 50, 50, 50));
}

#[test]
fn quarters_of_an_odd_region_leave_no_gap() {
    let region = Region::new(-3, 10, 5, 7);
    assert_eq!(region.quarter(Quadrant::NorthWest), Region::new(-3, 10, 2, 3));
    assert_eq!(region.quarter(Quadrant::NorthEast), Region::new(0, 10, 2, 3));
    assert_eq!(region.quarter(Quadrant::SouthWest), Region::new(-3, 14, 2, 3));
    assert_eq!(region.quarter(Quadrant::SouthEast), Region::new(0, 14, 2, 3));
    for x in -3..=2 {
        for y in 10..=17 {
            let p = Point::new(x, y);
            let covered = region.quarter(Quadrant::NorthEast).contains(p)
                || region.quarter(Quadrant::NorthWest).contains(p)
                || region.quarter(Quadrant::SouthEast).contains(p)
                || region.quarter(Quadrant::SouthWest).contains(p);
            assert!(covered);
        }
    }
}

#[test]
fn quarters_of_a_region_one_wide_are_single_columns() {
    let region = Region::new(7, 7, 1, 1);
    assert_eq!(region.quarter(Quadrant::NorthWest), Region::new(7, 7, 0, 0));
    assert_eq!(region.quarter(Quadrant::NorthEast), Region::new(8, 7, 0, 0));
    assert_eq!(region.quarter(Quadrant::SouthWest), Region::new(7, 8, 0, 0));
    assert_eq!(region.quarter(Quadrant::SouthEast), Region::new(8, 8, 0, 0));
}

#[test]
fn quarters_at_the_top_of_the_coordinate_range() {
    let region = Region::new(i32::MIN, i32::MIN, u32::MAX, u32::MAX);
    assert_eq!(
        region.quarter(Quadrant::SouthEast),
        Region::new(0, 0, i32::MAX as u32, i32::MAX as u32)
    );
    assert_eq!(
        region.quarter(Quadrant::NorthWest),
        Region::new(i32::MIN, i32::MIN, i32::MAX as u32, i32::MAX as u32)
    );
}

use hs_hackathon::bounding_box::BoundingBox;
use hs_hackathon::error::Error;
use hs_hackathon::utils::bbox_resize;

#[test]
fn new_accepts_ordered_bounds() {
    let b = BoundingBox::new(1, 2, 3, 4).unwrap();
    assert_eq!(b.x_min(), 1);
    assert_eq!(b.y_min(), 2);
    assert_eq!(b.x_max(), 3);
    assert_eq!(b.y_max(), 4);
}

#[test]
fn new_accepts_degenerate_box() {
    let b = BoundingBox::new(7, 7, 7, 7).unwrap();
    assert_eq!(b.x_min(), 7);
    assert_eq!(b.x_max(), 7);
}

#[test]
fn new_rejects_crossed_x() {
    assert_eq!(BoundingBox::new(5, 0, 4, 10), Err(Error::InvalidRange));
}

#[test]
fn new_rejects_crossed_y() {
    assert_eq!(BoundingBox::new(0, 11, 4, 10), Err(Error::InvalidRange));
}

#[test]
fn set_coordinates_updates_all_bounds() {
    let mut b = BoundingBox::new(0, 0, 10, 10).unwrap();
    b.set_coordinates(2, 3, 12, 13).unwrap();
    assert_eq!(b.x_min(), 2);
    assert_eq!(b.y_min(), 3);
    assert_eq!(b.x_max(), 12);
    assert_eq!(b.y_max(), 13);
}

#[test]
fn set_coordinates_rejects_min_crossing_current_max() {
    let mut b = BoundingBox::new(0, 0, 10, 10).unwrap();
    assert_eq!(b.set_coordinates(11, 0, 12, 10), Err(Error::InvalidRange));
    // the box is left unchanged on rejection
    assert_eq!(b.x_min(), 0);
    assert_eq!(b.x_max(), 10);
}

#[test]
fn set_coordinates_rejects_crossed_new_bounds() {
    let mut b = BoundingBox::new(0, 0, 10, 10).unwrap();
    assert_eq!(b.set_coordinates(5, 5, 10, 4), Err(Error::InvalidRange));
    assert_eq!(b.y_min(), 0);
}

#[test]
fn iter_walks_half_open_ranges() {
    let b = BoundingBox::new(1, 2, 3, 4).unwrap();
    let coords = b.iter();
    assert_eq!(coords, vec![(1, 2), (1, 3), (2, 2), (2, 3)]);
}

#[test]
fn iter_of_degenerate_box_is_empty() {
    let b = BoundingBox::new(5, 5, 5, 9).unwrap();
    assert_eq!(b.iter().len(), 0);
}

#[test]
fn size_filter_rejects_small_box() {
    // spans are 5 by 5: below the (7, 7) minimum
    let b = BoundingBox::new(0, 0, 5, 5).unwrap();
    assert!(!b.is_within_size_bounds((7, 7), (20, 20)));
}

#[test]
fn size_filter_accepts_box_within_bounds() {
    let b = BoundingBox::new(0, 0, 10, 10).unwrap();
    assert!(b.is_within_size_bounds((7, 7), (20, 20)));
}

#[test]
fn size_filter_rejects_one_axis_out_of_range() {
    let b = BoundingBox::new(0, 0, 10, 30).unwrap();
    assert!(!b.is_within_size_bounds((7, 7), (20, 20)));
}

#[test]
fn test_adapt_to_original_size() {
    let original_size = &(500, 800);
    let resized_size = &(250, 400);
    let bbox = BoundingBox::new(100, 100, 120, 120).unwrap();
    let adapted_bbox = bbox_resize(&bbox, original_size, resized_size).unwrap();
    let ratio_x = original_size.0 as f32 / resized_size.0 as f32;
    let ratio_y = original_size.1 as f32 / resized_size.1 as f32;
    assert_eq!(
        adapted_bbox.x_max() - adapted_bbox.x_min(),
        (bbox.x_max() - bbox.x_min()) * ratio_x.round() as u32
    );
    assert_eq!(
        adapted_bbox.y_max() - adapted_bbox.y_min(),
        (bbox.y_max() - bbox.y_min()) * ratio_y.round() as u32
    );
}

#[test]
fn bbox_resize_rounds_to_nearest() {
    // scale 3/2: coordinate 3 maps to 4.5, which rounds up to 5
    let bbox = BoundingBox::new(1, 1, 3, 3).unwrap();
    let scaled = bbox_resize(&bbox, &(3, 3), &(2, 2)).unwrap();
    assert_eq!(scaled.x_min(), 2);
    assert_eq!(scaled.y_min(), 2);
    assert_eq!(scaled.x_max(), 5);
    assert_eq!(scaled.y_max(), 5);
}

#[test]
fn bbox_resize_round_trip_stays_within_one_pixel() {
    // up to a larger space and back: each bound moves by at most one pixel
    let bbox = BoundingBox::new(13, 27, 61, 89).unwrap();
    let up = bbox_resize(&bbox, &(1000, 1000), &(300, 300)).unwrap();
    let back = bbox_resize(&up, &(300, 300), &(1000, 1000)).unwrap();
    assert!(back.x_min().abs_diff(bbox.x_min()) <= 1);
    assert!(back.y_min().abs_diff(bbox.y_min()) <= 1);
    assert!(back.x_max().abs_diff(bbox.x_max()) <= 1);
    assert!(back.y_max().abs_diff(bbox.y_max()) <= 1);
}

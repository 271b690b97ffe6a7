use asr_policy_manager::layout::{centered_rect, screen_areas, Area};

fn area(x: u16, y: u16, width: u16, height: u16) -> Area {
    Area { x, y, width, height }
}

/// The coordinates between which the middle part lies.
fn middle(start: u16, length: u16, percent: u16) -> (u16, u16) {
    let end = start.saturating_add(length);
    let size = u32::from(end - start);
    let before = u32::from((100 - percent) / 2);
    let at = |share: u32| ((100 * u32::from(start) + size * share + 50) / 100) as u16;
    (at(before), at(before + u32::from(percent)))
}

fn check_centered(percent_x: u16, percent_y: u16, outer: Area) {
    let (top, bottom) = middle(outer.y, outer.height, percent_y);
    let (left, right) = middle(outer.x, outer.width, percent_x);
    let inner = centered_rect(percent_x, percent_y, outer);
    assert_eq!(inner, area(left, top, right - left, bottom - top), "{percent_x} {percent_y} {outer:?}");
}

#[test]
fn dialog_takes_the_middle_of_a_usual_terminal() {
    assert_eq!(centered_rect(80, 60, area(0, 0, 80, 24)), area(8, 5, 64, 14));
    assert_eq!(centered_rect(80, 60, area(0, 0, 120, 30)), area(12, 6, 96, 18));
    assert_eq!(centered_rect(80, 60, area(0, 0, 0, 0)), area(0, 0, 0, 0));
    assert_eq!(centered_rect(100, 100, area(3, 4, 10, 20)), area(3, 4, 10, 20));
}

#[test]
fn dialog_is_centred_for_every_width_and_height() {
    for n in 0..300_u16 {
        check_centered(80, 60, area(0, 0, n, 24));
        check_centered(80, 60, area(0, 0, 80, n));
        check_centered(80, 60, area(7, 3, n, n));
    }
}

#[test]
fn every_percentage_is_met() {
    for percent in 0..=100_u16 {
        for length in [0, 1, 2, 3, 7, 10, 24, 25, 50, 79, 80, 99, 100, 133] {
            check_centered(percent, 100 - percent, area(0, 0, length, length));
            check_centered(percent, percent, area(1, 2, length, 9));
        }
    }
}

#[test]
fn large_areas_are_centred_too() {
    for (start, length) in [(0, 65535), (0, 32767), (1, 65534), (60000, 5535), (12345, 43210)] {
        for percent in [0, 1, 33, 50, 60, 67, 80, 99, 100] {
            check_centered(percent, percent, area(start, start, length, length));
        }
    }
}

#[test]
fn areas_beyond_the_last_coordinate_are_cut() {
    check_centered(80, 60, area(65000, 65500, 1000, 300));
    check_centered(50, 50, area(65535, 65535, 65535, 65535));
    let (table, status) = screen_areas(area(0, 65530, 10, 100));
    assert_eq!(table, area(0, 65530, 10, 5));
    assert_eq!(status, area(0, 65535, 10, 0));
}

#[test]
fn status_lines_stand_below_the_table() {
    assert_eq!(screen_areas(area(0, 0, 80, 24)), (area(0, 0, 80, 20), area(0, 20, 80, 4)));
    assert_eq!(screen_areas(area(2, 1, 80, 9)), (area(2, 1, 80, 5), area(2, 6, 80, 4)));
}

#[test]
fn small_screens_give_the_table_its_height_first() {
    for height in 0..400_u16 {
        for y in [0, 5] {
            let (table, status) = screen_areas(area(1, y, 40, height));
            let body = if height >= 9 { height - 4 } else { height.min(5) };
            assert_eq!(table, area(1, y, 40, body));
            assert_eq!(status, area(1, y + body, 40, height - body));
        }
    }
}

#[test]
fn tall_screens_are_split_the_same_way() {
    for height in [9999, 32767, 32768, 40000, 65535_u16] {
        let (table, status) = screen_areas(area(0, 0, 7, height));
        assert_eq!(table, area(0, 0, 7, height - 4));
        assert_eq!(status, area(0, height - 4, 7, 4));
    }
}

#[test]
fn centred_areas_lie_inside() {
    for n in 0..60_u16 {
        let outer = area(n, 2 * n, 3 * n, 5 * n);
        let inner = centered_rect(73, 41, outer);
        assert!(inner.x >= outer.x && inner.x + inner.width <= outer.x + outer.width);
        assert!(inner.y >= outer.y && inner.y + inner.height <= outer.y + outer.height);
    }
}

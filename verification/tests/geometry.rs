use gamescope_led_sync::geometry::{
    chain, edge_sums, sampled_count, sampled_rgb, Corner, EdgeColors, Frame, Layout, ZoneSum,
};

fn layout(top: usize, right: usize, bottom: usize, left: usize, start: Corner, clockwise: bool) -> Layout {
    Layout::new(top, right, bottom, left, start, clockwise).unwrap()
}

#[test]
fn corner_parse_known_names() {
    assert_eq!(Corner::parse("bl"), Some(Corner::Bl));
    assert_eq!(Corner::parse("tl"), Some(Corner::Tl));
    assert_eq!(Corner::parse("tr"), Some(Corner::Tr));
    assert_eq!(Corner::parse("br"), Some(Corner::Br));
}

#[test]
fn corner_parse_refuses_other_text() {
    assert_eq!(Corner::parse(""), None);
    assert_eq!(Corner::parse("b"), None);
    assert_eq!(Corner::parse("BL"), None);
    assert_eq!(Corner::parse("lb"), None);
    assert_eq!(Corner::parse("bl "), None);
    assert_eq!(Corner::parse("tt"), None);
}

#[test]
fn corner_name_reads_back() {
    for c in [Corner::Bl, Corner::Tl, Corner::Tr, Corner::Br] {
        assert_eq!(Corner::parse(c.name()), Some(c));
    }
    assert_eq!(Corner::Tr.name(), "tr");
}

#[test]
fn layout_keeps_its_counts() {
    let l = layout(132, 75, 132, 75, Corner::Bl, true);
    assert_eq!(l.top(), 132);
    assert_eq!(l.right(), 75);
    assert_eq!(l.bottom(), 132);
    assert_eq!(l.left(), 75);
    assert_eq!(l.start(), Corner::Bl);
    assert!(l.clockwise());
    assert_eq!(l.count(), 414);
    let c = l.clone();
    assert_eq!(c.count(), 414);
    assert_eq!(c.start(), Corner::Bl);
}

#[test]
fn layout_refuses_zero_leds() {
    let e = Layout::new(0, 0, 0, 0, Corner::Tl, false).err().unwrap();
    assert_eq!(e, "layout has zero LEDs");
}

#[test]
fn layout_refuses_more_than_one_packet() {
    let e = Layout::new(200, 100, 200, 100, Corner::Bl, true).err().unwrap();
    assert_eq!(e, "600 LEDs exceed one DRGB packet (490)");
    let e = Layout::new(491, 0, 0, 0, Corner::Bl, true).err().unwrap();
    assert_eq!(e, "491 LEDs exceed one DRGB packet (490)");
}

#[test]
fn layout_accepts_the_bounds() {
    assert_eq!(layout(490, 0, 0, 0, Corner::Br, true).count(), 490);
    assert_eq!(layout(0, 0, 1, 0, Corner::Br, false).count(), 1);
}

#[test]
fn layout_counts_huge_totals_exactly() {
    let e = Layout::new(usize::MAX, usize::MAX, 0, 0, Corner::Bl, true).err().unwrap();
    assert_eq!(e, format!("{} LEDs exceed one DRGB packet (490)", 2 * (usize::MAX as u128)));
}

fn edges() -> EdgeColors<u32> {
    EdgeColors { top: vec![1, 2, 3], right: vec![4, 5], bottom: vec![6, 7, 8], left: vec![9, 10] }
}

#[test]
fn chain_clockwise_from_bottom_left() {
    let l = layout(3, 2, 3, 2, Corner::Bl, true);
    assert_eq!(chain(&edges(), &l), vec![10, 9, 1, 2, 3, 4, 5, 8, 7, 6]);
}

#[test]
fn chain_counterclockwise_from_bottom_left() {
    let l = layout(3, 2, 3, 2, Corner::Bl, false);
    assert_eq!(chain(&edges(), &l), vec![6, 7, 8, 5, 4, 3, 2, 1, 9, 10]);
}

#[test]
fn chain_clockwise_from_top_left() {
    let l = layout(3, 2, 3, 2, Corner::Tl, true);
    assert_eq!(chain(&edges(), &l), vec![1, 2, 3, 4, 5, 8, 7, 6, 10, 9]);
}

#[test]
fn chain_counterclockwise_reverses_clockwise() {
    for start in [Corner::Bl, Corner::Tl, Corner::Tr, Corner::Br] {
        let cw = chain(&edges(), &layout(3, 2, 3, 2, start, true));
        let mut ccw = chain(&edges(), &layout(3, 2, 3, 2, start, false));
        ccw.reverse();
        assert_eq!(ccw, cw);
    }
    let l = layout(3, 2, 3, 2, Corner::Br, false);
    assert_eq!(chain(&edges(), &l), vec![5, 4, 3, 2, 1, 9, 10, 6, 7, 8]);
}

#[test]
fn chain_is_a_permutation_of_the_zones() {
    for start in [Corner::Bl, Corner::Tl, Corner::Tr, Corner::Br] {
        for cw in [true, false] {
            let l = layout(3, 2, 3, 2, start, cw);
            let mut out = chain(&edges(), &l);
            assert_eq!(out.len(), l.count());
            out.sort();
            assert_eq!(out, (1..=10).collect::<Vec<u32>>());
        }
    }
}

#[test]
fn chain_skips_an_edge_without_leds() {
    let e = EdgeColors { top: vec![1u8, 2], right: vec![], bottom: vec![3], left: vec![4] };
    let l = layout(2, 0, 1, 1, Corner::Tr, true);
    assert_eq!(chain(&e, &l), vec![3, 4, 1, 2]);
}

#[test]
fn chain_carries_float_colours() {
    let e = EdgeColors {
        top: vec![[1.0f32, 2.0, 3.0]],
        right: vec![[4.0f32, 5.0, 6.0]],
        bottom: vec![],
        left: vec![],
    };
    let l = layout(1, 1, 0, 0, Corner::Tl, true);
    assert_eq!(chain(&e, &l), vec![[1.0, 2.0, 3.0], [4.0, 5.0, 6.0]]);
}

#[test]
fn sampled_count_rounds_up() {
    assert_eq!(sampled_count(10, 1), 10);
    assert_eq!(sampled_count(10, 3), 4);
    assert_eq!(sampled_count(9, 3), 3);
    assert_eq!(sampled_count(0, 4), 0);
    assert_eq!(sampled_count(usize::MAX, 2), usize::MAX / 2 + 1);
}

/// A BGRx frame 4 wide and 2 high: blue is the pixel's index, green 50
/// more, red 100 more.
fn frame_bytes() -> Vec<u8> {
    let mut data = Vec::new();
    for y in 0..2u8 {
        for x in 0..4u8 {
            let i = y * 4 + x;
            data.extend_from_slice(&[i, 50 + i, 100 + i, 0]);
        }
    }
    data
}

fn zone(z: &ZoneSum) -> (u128, u128, u128, usize) {
    (z.r, z.g, z.b, z.count)
}

#[test]
fn edge_sums_of_a_small_frame() {
    let data = frame_bytes();
    let f = Frame { data: &data, width: 4, height: 2, stride: 16, step: 1 };
    let l = layout(2, 1, 2, 1, Corner::Bl, true);
    let e = edge_sums(&f, 1, &l);
    assert_eq!(e.top.iter().map(zone).collect::<Vec<_>>(), vec![(201, 101, 1, 2), (205, 105, 5, 2)]);
    assert_eq!(e.bottom.iter().map(zone).collect::<Vec<_>>(), vec![(209, 109, 9, 2), (213, 113, 13, 2)]);
    assert_eq!(e.left.iter().map(zone).collect::<Vec<_>>(), vec![(204, 104, 4, 2)]);
    assert_eq!(e.right.iter().map(zone).collect::<Vec<_>>(), vec![(210, 110, 10, 2)]);
}

#[test]
fn edge_sums_clamp_the_band() {
    let data = frame_bytes();
    let f = Frame { data: &data, width: 4, height: 2, stride: 16, step: 1 };
    let l = layout(1, 1, 0, 1, Corner::Bl, true);
    let zero = edge_sums(&f, 0, &l);
    assert_eq!(zone(&zero.top[0]), (100 * 4 + 6, 50 * 4 + 6, 6, 4));
    let deep = edge_sums(&f, 9, &l);
    // The band covers both rows; the side bands are two columns wide.
    assert_eq!(zone(&deep.top[0]), (100 * 8 + 28, 50 * 8 + 28, 28, 8));
    assert_eq!(zone(&deep.left[0]), (100 * 4 + 10, 50 * 4 + 10, 10, 4));
    assert_eq!(zone(&deep.right[0]), (100 * 4 + 18, 50 * 4 + 18, 18, 4));
}

#[test]
fn edge_sums_give_every_zone_a_sample() {
    // More zones than columns: zones overlap but none is empty.
    let data = frame_bytes();
    let f = Frame { data: &data, width: 4, height: 2, stride: 16, step: 1 };
    let l = layout(6, 3, 0, 0, Corner::Bl, true);
    let e = edge_sums(&f, 1, &l);
    assert_eq!(e.top.len(), 6);
    assert_eq!(e.right.len(), 3);
    assert!(e.top.iter().all(|z| z.count >= 1));
    assert!(e.right.iter().all(|z| z.count >= 1));
    assert_eq!(e.top.iter().map(|z| z.b).collect::<Vec<_>>(), vec![0, 0, 1, 2, 2, 3]);
}

#[test]
fn edge_sums_with_a_step() {
    let data = frame_bytes();
    let f = Frame { data: &data, width: 4, height: 2, stride: 16, step: 2 };
    let l = layout(2, 0, 0, 0, Corner::Bl, true);
    let e = edge_sums(&f, 1, &l);
    // Sampled columns 0 and 2 of row 0.
    assert_eq!(e.top.iter().map(zone).collect::<Vec<_>>(), vec![(100, 50, 0, 1), (102, 52, 2, 1)]);
}

#[test]
fn sampled_rgb_of_a_small_frame() {
    let data = frame_bytes();
    let f = Frame { data: &data, width: 4, height: 2, stride: 16, step: 1 };
    let (rgb, w, h) = sampled_rgb(&f);
    assert_eq!((w, h), (4, 2));
    assert_eq!(rgb.len(), 24);
    assert_eq!(&rgb[0..6], &[100, 50, 0, 101, 51, 1]);
    assert_eq!(&rgb[21..24], &[107, 57, 7]);
    let g = Frame { data: &data, width: 4, height: 2, stride: 16, step: 2 };
    assert_eq!(sampled_rgb(&g), (vec![100, 50, 0, 102, 52, 2], 2, 1));
}

#[test]
fn sampled_rgb_of_an_empty_frame() {
    let f = Frame { data: &[], width: 0, height: 0, stride: 0, step: 1 };
    assert_eq!(sampled_rgb(&f), (vec![], 0, 0));
}

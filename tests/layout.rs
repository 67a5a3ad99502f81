use wag::event::{ButtonEvent, Delivery, ElementState, MouseButton, PanelEvent};
use wag::geometry::{is_point_in_box, is_translated_point_in_box, ContentRatio, Fraction, Size, Vector2};
use wag::layer_stack::LayerStack;
use wag::ribbon::{Cell, LayoutError, Ribbon, RibbonOrientation};
use wag::button::Button;
use wag::solver::{adjust_cells, CellLimit, CellSizes};

fn free(ratio: u32) -> CellLimit {
    CellLimit::new(ratio, 0, None, None)
}

fn as_units(r: &CellSizes) -> Vec<f64> {
    r.sizes.iter().map(|s| *s as f64 / r.scale as f64).collect()
}

fn close(a: &[f64], b: &[f64]) -> bool {
    a.len() == b.len() && a.iter().zip(b).all(|(x, y)| (x - y).abs() < 0.01)
}

#[test]
fn three_equal_cells_share_evenly() {
    let limits = vec![free(1), free(1), free(1)];
    let r = adjust_cells(&limits, 300);
    assert!(close(&as_units(&r), &[100.0, 100.0, 100.0]));
}

#[test]
fn fourth_cell_with_minimum_takes_it_first() {
    let limits = vec![free(1), free(1), free(1), CellLimit::new(1, 250, None, None)];
    let r = adjust_cells(&limits, 300);
    assert_eq!(r.scale, 3);
    assert_eq!(r.sizes, vec![50, 50, 50, 750]);
    assert!(close(&as_units(&r), &[16.67, 16.67, 16.67, 250.0]));
}

#[test]
fn sizes_are_proportional_to_ratios() {
    let limits = vec![free(1), free(2), free(3)];
    let r = adjust_cells(&limits, 600);
    assert!(close(&as_units(&r), &[100.0, 200.0, 300.0]));
}

#[test]
fn overcommitted_minimums_overflow() {
    let limits = vec![CellLimit::new(1, 100, None, None), CellLimit::new(1, 0, None, None), CellLimit::new(3, 80, None, None)];
    let r = adjust_cells(&limits, 50);
    assert!(close(&as_units(&r), &[100.0, 0.0, 80.0]));
}

#[test]
fn maximum_gives_back_to_the_others() {
    let limits = vec![CellLimit::new(1, 0, Some(50), None), free(1), free(1)];
    let r = adjust_cells(&limits, 300);
    assert!(close(&as_units(&r), &[50.0, 125.0, 125.0]));
}

#[test]
fn cells_reaching_bounds_in_one_pass_lock_together() {
    // both maximums bind in the first pass: the shares are 100 each
    let limits = vec![CellLimit::new(1, 0, Some(60), None), CellLimit::new(1, 0, Some(90), None), free(1)];
    let r = adjust_cells(&limits, 300);
    assert!(close(&as_units(&r), &[60.0, 90.0, 150.0]));
}

#[test]
fn zero_extent_gives_minimums() {
    let limits = vec![CellLimit::new(1, 5, None, None), free(2)];
    let r = adjust_cells(&limits, 0);
    assert!(close(&as_units(&r), &[5.0, 0.0]));
}

#[test]
fn no_cells_no_sizes() {
    let r = adjust_cells(&Vec::new(), 300);
    assert_eq!(r.scale, 1);
    assert!(r.sizes.is_empty());
}

#[test]
fn pinned_size_is_kept() {
    let mut l = free(1);
    l.set_size(40);
    assert_eq!(l.min_size, 40);
    assert_eq!(l.max_size, Some(40));
    let r = adjust_cells(&vec![l, free(1)], 100);
    assert!(close(&as_units(&r), &[40.0, 60.0]));
}

#[test]
fn default_limit() {
    let l = CellLimit::default();
    assert_eq!(l.ratio, 1);
    assert_eq!(l.min_size, 0);
    assert_eq!(l.max_size, None);
    assert_eq!(l.content_ratio, ContentRatio::full());
}

fn horizontal_ribbon() -> Ribbon {
    let mut rb = Ribbon::new(RibbonOrientation::Horizontal);
    rb.add_panel(10, free(1)).unwrap();
    rb.add_panel(11, free(1)).unwrap();
    rb.add_panel(12, free(1)).unwrap();
    rb
}

fn value(num: i64, den: i64) -> f64 {
    num as f64 / den as f64
}

fn near(a: f64, b: f64) -> bool {
    (a - b).abs() < 0.01
}

#[test]
fn horizontal_ribbon_places_cells_end_to_end() {
    let mut rb = horizontal_ribbon();
    let d = rb.on_event(&PanelEvent::Resized(Size::whole(300, 40))).unwrap();
    let cells = rb.cells();
    assert_eq!(cells.len(), 3);
    for (i, c) in cells.iter().enumerate() {
        assert_eq!(c.offset, Vector2 { x: 100 * i as i64, y: 0, den: 1 });
        assert_eq!(c.size, Size { x: 100, y: 40, den: 1 });
    }
    assert_eq!(d.len(), 3);
    for (i, x) in d.iter().enumerate() {
        assert_eq!(*x, Delivery { child: 10 + i, event: PanelEvent::Resized(Size { x: 100, y: 40, den: 1 }) });
    }
}

#[test]
fn adding_a_cell_lays_out_again_exactly() {
    let mut rb = horizontal_ribbon();
    rb.resize_cells(Size::whole(300, 50)).unwrap();
    rb.add_panel(13, CellLimit::new(1, 250, None, None)).unwrap();
    let cells = rb.cells();
    let sizes: Vec<f64> = cells.iter().map(|c| value(c.size.x, c.size.den)).collect();
    let offsets: Vec<f64> = cells.iter().map(|c| value(c.offset.x, c.offset.den)).collect();
    assert!(close(&sizes, &[16.67, 16.67, 16.67, 250.0]));
    assert!(close(&offsets, &[0.0, 16.67, 33.33, 50.0]));
    assert_eq!(cells[0].size, Size { x: 50, y: 150, den: 3 });
    assert_eq!(cells[1].offset, Vector2 { x: 50, y: 0, den: 3 });
    assert_eq!(cells[3].offset, Vector2 { x: 50, y: 0, den: 1 });
    assert_eq!(cells[3].size, Size { x: 250, y: 50, den: 1 });
    assert!(cells.iter().all(|c| value(c.size.y, c.size.den) == 50.0));
    let last = &cells[3];
    assert_eq!(last.offset.x + last.size.x, 300 * last.size.den);
}

#[test]
fn vertical_ribbon_uses_height() {
    let mut rb = Ribbon::new(RibbonOrientation::Vertical);
    rb.add_panel(1, free(1)).unwrap();
    rb.add_panel(2, free(3)).unwrap();
    rb.resize_cells(Size::whole(50, 400)).unwrap();
    let c = rb.cells();
    assert_eq!(value(c[0].size.x, c[0].size.den), 50.0);
    assert_eq!(value(c[0].size.y, c[0].size.den), 100.0);
    assert_eq!(value(c[1].size.y, c[1].size.den), 300.0);
    assert_eq!(value(c[1].offset.y, c[1].offset.den), 100.0);
    assert_eq!(c[1].offset.x, 0);
}

#[test]
fn fractional_extent_is_solved_in_its_own_units() {
    let mut rb = Ribbon::new(RibbonOrientation::Horizontal);
    rb.add_panel(1, free(1)).unwrap();
    rb.add_panel(2, CellLimit::new(1, 10, None, None)).unwrap();
    // 25 / 2 = 12.5 units wide: the second cell takes its minimum of 10
    rb.resize_cells(Size { x: 25, y: 4, den: 2 }).unwrap();
    let c = rb.cells();
    assert!(near(value(c[0].size.x, c[0].size.den), 2.5));
    assert!(near(value(c[1].size.x, c[1].size.den), 10.0));
    assert!(near(value(c[1].offset.x, c[1].offset.den), 2.5));
    assert!(near(value(c[0].size.y, c[0].size.den), 2.0));
}

#[test]
fn stacked_cells_are_centred() {
    let mut rb = Ribbon::new(RibbonOrientation::Stack);
    let half = Fraction { num: 1, den: 2 };
    rb.add_panel(1, CellLimit::new(1, 0, None, Some(ContentRatio { x: half, y: half }))).unwrap();
    rb.add_panel(2, free(1)).unwrap();
    let d = rb.on_event(&PanelEvent::Resized(Size::whole(200, 100))).unwrap();
    let c = rb.cells();
    assert_eq!(c[0].size, Size { x: 100, y: 50, den: 1 });
    assert_eq!(c[0].offset, Vector2 { x: 50, y: 25, den: 1 });
    assert_eq!(value(c[1].size.x, c[1].size.den), 200.0);
    assert_eq!(value(c[1].size.y, c[1].size.den), 100.0);
    assert_eq!(c[1].offset.x, 0);
    assert_eq!(d[0].event, PanelEvent::Resized(Size { x: 100, y: 50, den: 1 }));
}

#[test]
fn stacked_cell_keeps_half_units() {
    let mut rb = Ribbon::new(RibbonOrientation::Stack);
    let half = Fraction { num: 1, den: 2 };
    rb.add_panel(1, CellLimit::new(1, 0, None, Some(ContentRatio { x: half, y: half }))).unwrap();
    rb.resize_cells(Size::whole(201, 101)).unwrap();
    let c = rb.cells()[0];
    assert_eq!(value(c.size.x, c.size.den), 100.5);
    assert_eq!(value(c.offset.x, c.offset.den), 50.25);
    assert_eq!(value(c.size.y, c.size.den), 50.5);
    assert_eq!(value(c.offset.y, c.offset.den), 25.25);
}

#[test]
fn content_larger_than_the_cell_overhangs_evenly() {
    let mut rb = Ribbon::new(RibbonOrientation::Stack);
    let double = Fraction { num: 2, den: 1 };
    rb.add_panel(1, CellLimit::new(1, 0, None, Some(ContentRatio { x: double, y: Fraction::whole() }))).unwrap();
    rb.resize_cells(Size::whole(10, 10)).unwrap();
    let c = rb.cells()[0];
    assert_eq!(value(c.size.x, c.size.den), 20.0);
    assert_eq!(value(c.offset.x, c.offset.den), -5.0);
}

#[test]
fn layout_that_does_not_fit_changes_nothing() {
    let mut rb = horizontal_ribbon();
    rb.resize_cells(Size::whole(30, 4)).unwrap();
    let before: Vec<Cell> = rb.cells().clone();
    // thirds of 31 wide leave the height i64::MAX over the denominator 3
    assert_eq!(rb.resize_cells(Size::whole(31, i64::MAX)), Err(LayoutError::OutOfRange));
    assert_eq!(rb.size, Size::whole(30, 4));
    assert_eq!(rb.cells().iter().map(|c| c.size).collect::<Vec<_>>(), before.iter().map(|c| c.size).collect::<Vec<_>>());
    assert_eq!(rb.add_panel(20, CellLimit::new(1, 1 << 31, None, None)), Ok(()));
    let mut big = Ribbon::new(RibbonOrientation::Horizontal);
    big.resize_cells(Size { x: 10, y: 1, den: 1 << 30 }).unwrap();
    assert_eq!(big.add_panel(1, CellLimit::new(1, 8, None, None)), Err(LayoutError::OutOfRange));
    assert!(big.cells().is_empty());
}

fn click() -> PanelEvent {
    PanelEvent::MouseInput { in_bounds: false, state: ElementState::Pressed, button: MouseButton::Left }
}

#[test]
fn mouse_input_goes_to_the_cell_under_the_cursor() {
    let mut rb = horizontal_ribbon();
    rb.resize_cells(Size::whole(300, 40)).unwrap();
    let moved = rb.on_event(&PanelEvent::CursorMoved(Vector2::whole(150, 10))).unwrap();
    assert_eq!(moved.len(), 3);
    let xs: Vec<f64> = moved
        .iter()
        .map(|d| match d.event {
            PanelEvent::CursorMoved(p) => value(p.x, p.den),
            _ => panic!("not a cursor move"),
        })
        .collect();
    assert!(close(&xs, &[150.0, 50.0, -50.0]));
    let d = rb.on_event(&click()).unwrap();
    assert_eq!(
        d,
        vec![Delivery {
            child: 11,
            event: PanelEvent::MouseInput { in_bounds: true, state: ElementState::Pressed, button: MouseButton::Left },
        }]
    );
}

#[test]
fn mouse_input_on_a_shared_edge_goes_to_the_first_cell() {
    let mut rb = horizontal_ribbon();
    rb.resize_cells(Size::whole(300, 40)).unwrap();
    rb.on_event(&PanelEvent::CursorMoved(Vector2::whole(100, 40))).unwrap();
    let d = rb.on_event(&click()).unwrap();
    assert_eq!(d.len(), 1);
    assert_eq!(d[0].child, 10);
}

#[test]
fn mouse_input_between_thirds_is_exact() {
    let mut rb = horizontal_ribbon();
    rb.resize_cells(Size::whole(100, 10)).unwrap();
    // 100 / 3 = 33.33...: 33.3 lies in the first cell, 33.4 in the second
    rb.on_event(&PanelEvent::CursorMoved(Vector2 { x: 333, y: 5, den: 10 })).unwrap();
    assert_eq!(rb.on_event(&click()).unwrap()[0].child, 10);
    rb.on_event(&PanelEvent::CursorMoved(Vector2 { x: 334, y: 5, den: 10 })).unwrap();
    assert_eq!(rb.on_event(&click()).unwrap()[0].child, 11);
}

#[test]
fn mouse_input_outside_every_cell_goes_nowhere() {
    let mut rb = horizontal_ribbon();
    rb.resize_cells(Size::whole(300, 40)).unwrap();
    assert!(rb.on_event(&click()).unwrap().is_empty());
    rb.on_event(&PanelEvent::CursorMoved(Vector2::whole(301, 10))).unwrap();
    assert!(rb.on_event(&click()).unwrap().is_empty());
    rb.on_event(&PanelEvent::CursorMoved(Vector2::whole(10, -1))).unwrap();
    assert!(rb.on_event(&click()).unwrap().is_empty());
}

#[test]
fn other_events_reach_every_cell() {
    let mut rb = horizontal_ribbon();
    let d = rb.on_event(&PanelEvent::Empty).unwrap();
    assert_eq!(d.iter().map(|x| x.child).collect::<Vec<_>>(), vec![10, 11, 12]);
    assert!(d.iter().all(|x| x.event == PanelEvent::Empty));
}

#[test]
fn subscriber_gets_known_size() {
    let mut rb = horizontal_ribbon();
    assert_eq!(rb.on_subscribe(), None);
    rb.resize_cells(Size::whole(30, 4)).unwrap();
    assert_eq!(rb.on_subscribe(), Some(PanelEvent::Resized(Size::whole(30, 4))));
    assert_eq!(rb.orientation(), RibbonOrientation::Horizontal);
}

#[test]
fn cells_are_equal_by_child() {
    let a = Cell::new(7, free(1));
    let mut b = Cell::new(7, free(2));
    b.size = Size::whole(3, 3);
    assert!(a == b);
    assert!(a != Cell::new(8, free(1)));
}

#[test]
fn point_in_box_includes_edges() {
    let size = Size::whole(10, 20);
    let offset = Vector2::whole(5, 5);
    assert!(is_point_in_box(Vector2::whole(5, 5), offset, size));
    assert!(is_point_in_box(Vector2::whole(15, 25), offset, size));
    assert!(!is_point_in_box(Vector2::whole(16, 25), offset, size));
    assert!(!is_point_in_box(Vector2::whole(10, 4), offset, size));
    assert!(is_point_in_box(Vector2 { x: 29, y: 10, den: 2 }, offset, size));
    assert!(!is_point_in_box(Vector2 { x: 31, y: 10, den: 2 }, offset, size));
    assert!(!is_point_in_box(Vector2 { x: 9, y: 10, den: 2 }, offset, size));
    assert!(is_translated_point_in_box(Vector2::whole(0, 20), size));
    assert!(!is_translated_point_in_box(Vector2::whole(-1, 0), size));
}

#[test]
fn translation_is_exact() {
    let p = Vector2::translate(Vector2::whole(10, 10), Vector2 { x: 10, y: 0, den: 3 }).unwrap();
    assert_eq!(p, Vector2 { x: 20, y: 30, den: 3 });
    assert_eq!(Vector2::translate(Vector2::whole(i64::MIN, 0), Vector2 { x: 1, y: 0, den: 2 }), None);
}

#[test]
fn layer_stack_routes_by_kind() {
    let mut ls = LayerStack::new();
    ls.push_panel(1);
    ls.push_panel(2);
    ls.push_panel(3);
    let r = ls.on_event(&PanelEvent::Resized(Size::whole(8, 9)));
    assert_eq!(ls.size, Size::whole(8, 9));
    assert_eq!(r.iter().map(|d| d.child).collect::<Vec<_>>(), vec![1, 2, 3]);
    assert!(r.iter().all(|d| d.event == PanelEvent::Resized(Size::whole(8, 9))));
    let m = ls.on_event(&click());
    assert_eq!(m, vec![Delivery { child: 3, event: click() }]);
    let c = ls.on_event(&PanelEvent::CursorMoved(Vector2::whole(1, 1)));
    assert_eq!(c.len(), 3);
}

#[test]
fn layer_stack_removes_by_identity() {
    let mut ls = LayerStack::new();
    ls.push_panel(1);
    ls.push_panel(2);
    assert!(ls.remove_panel(2));
    assert!(!ls.remove_panel(5));
    assert_eq!(ls.layers(), &vec![1]);
    assert_eq!(ls.on_event(&click()), vec![Delivery { child: 1, event: click() }]);
    assert!(ls.remove_panel(1));
    assert!(ls.on_event(&click()).is_empty());
}

fn mouse(in_bounds: bool, state: ElementState, button: MouseButton) -> PanelEvent {
    PanelEvent::MouseInput { in_bounds, state, button }
}

#[test]
fn button_press_and_release() {
    let mut b = Button::new();
    assert_eq!(b.on_event(&mouse(false, ElementState::Pressed, MouseButton::Left)), None);
    assert_eq!(b.on_event(&mouse(true, ElementState::Released, MouseButton::Left)), None);
    assert_eq!(b.on_event(&mouse(true, ElementState::Pressed, MouseButton::Left)), Some(ButtonEvent::Press));
    assert!(b.pressed);
    assert_eq!(b.on_event(&mouse(true, ElementState::Pressed, MouseButton::Right)), None);
    assert_eq!(b.on_event(&mouse(false, ElementState::Released, MouseButton::Left)), Some(ButtonEvent::Release(false)));
    assert!(!b.pressed);
    assert_eq!(b.on_event(&PanelEvent::Empty), None);
}

#[test]
fn maximum_below_extent_leaves_space_unfilled() {
    let r = adjust_cells(&vec![CellLimit::new(1, 0, Some(10), None)], 100);
    assert!(close(&as_units(&r), &[10.0]));
}

#[test]
fn maximum_and_minimums_locking_together_overflow() {
    let limits = vec![
        CellLimit::new(10, 0, Some(40), None),
        CellLimit::new(1, 35, None, None),
        CellLimit::new(1, 35, None, None),
    ];
    let r = adjust_cells(&limits, 100);
    assert_eq!(r.scale, 12);
    assert!(close(&as_units(&r), &[40.0, 35.0, 35.0]));
}

#[test]
fn nested_ribbons_stay_in_lowest_terms() {
    // a cell of ratio 30 out of 100 in a 1920-wide row is 576 wide: each level
    // passes its child a whole size, however deep the nesting
    let mut size = Size::whole(1920, 1080);
    let mut point = Vector2::whole(10, 10);
    for _ in 0..8 {
        let mut rb = Ribbon::new(RibbonOrientation::Horizontal);
        rb.add_panel(1, free(30)).unwrap();
        rb.add_panel(2, free(70)).unwrap();
        let d = rb.on_event(&PanelEvent::Resized(size)).unwrap();
        let moved = rb.on_event(&PanelEvent::CursorMoved(point)).unwrap();
        size = match d[0].event {
            PanelEvent::Resized(s) => s,
            _ => panic!("not a resize"),
        };
        point = match moved[0].event {
            PanelEvent::CursorMoved(p) => p,
            _ => panic!("not a cursor move"),
        };
    }
    assert!(size.den < 1_000_000_000);
    assert!(point.den < 1_000_000_000);
    assert!(near(value(size.x, size.den), 1920.0 * 0.3f64.powi(8)));
}

#[test]
fn nested_thirds_keep_small_denominators() {
    let mut size = Size::whole(1000, 1000);
    for _ in 0..6 {
        let mut rb = Ribbon::new(RibbonOrientation::Vertical);
        for id in 0..3 {
            rb.add_panel(id, free(1)).unwrap();
        }
        let d = rb.on_event(&PanelEvent::Resized(size)).unwrap();
        size = match d[2].event {
            PanelEvent::Resized(s) => s,
            _ => panic!("not a resize"),
        };
    }
    // 1000 wide, 1000 / 729 high
    assert_eq!(size, Size { x: 729000, y: 1000, den: 729 });
}

#[test]
fn nested_stacks_keep_small_denominators() {
    let nine_tenths = Fraction { num: 9, den: 10 };
    let mut size = Size::whole(1920, 1080);
    for _ in 0..6 {
        let mut rb = Ribbon::new(RibbonOrientation::Stack);
        rb.add_panel(1, CellLimit::new(1, 0, None, Some(ContentRatio { x: nine_tenths, y: nine_tenths }))).unwrap();
        let d = rb.on_event(&PanelEvent::Resized(size)).unwrap();
        size = match d[0].event {
            PanelEvent::Resized(s) => s,
            _ => panic!("not a resize"),
        };
    }
    assert!(near(value(size.x, size.den), 1920.0 * 0.9f64.powi(6)));
    assert!(size.den <= 1_000_000);
}

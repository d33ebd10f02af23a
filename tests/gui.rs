use retained_gui::gui::{
    inside_rect, new_button, new_form, new_label, render_text, sat_add, Rect, RenderJob, UiError, Widget, UI,
};

#[test]
fn test_gui_rendering() {
    let mut ui = UI::new(800, 600);
    let main_form = ui.add_widget(-1, new_form(50, 50, 400, 300, "Test menu")).unwrap();
    let second_form = ui.add_widget(-1, new_form(100, 100, 200, 200, "Second form")).unwrap();
    let _main_label = ui.add_widget(main_form, new_label(10, 10, "Hello.")).unwrap();
    let main_button = ui.add_widget(main_form, new_button(10, 40, 100, 40, "OK.")).unwrap();

    let jobs = ui.render();
    assert!(jobs.len() == 4);

    for job in jobs {
        match job {
            RenderJob::Form { index, x, y, w, h, .. } => {
                assert!(index == main_form || index == second_form);
                if index == main_form {
                    assert_eq!(x, 50);
                    assert_eq!(y, 50);
                    assert_eq!(w, 400);
                    assert_eq!(h, 300);
                } else if index == second_form {
                    assert_eq!(x, 100);
                    assert_eq!(y, 100);
                    assert_eq!(w, 200);
                    assert_eq!(h, 200);
                }
            }
            RenderJob::Button { index, x, y, w, h, .. } => {
                assert_eq!(index, main_button);
                assert_eq!(x, 60);
                assert_eq!(y, 90);
                assert_eq!(w, 100);
                assert_eq!(h, 40);
            }
            _ => (),
        }
    }

    ui.mousemove(0, 0, 80, 110);
    ui.mousedown();
}

fn demo() -> (UI, i32, i32, i32, i32) {
    let mut ui = UI::new(800, 600);
    let main_form = ui.add_widget(-1, new_form(50, 50, 400, 300, "Test menu")).unwrap();
    let second_form = ui.add_widget(-1, new_form(100, 100, 200, 200, "Second form")).unwrap();
    let main_label = ui.add_widget(main_form, new_label(10, 10, "Hello.")).unwrap();
    let main_button = ui.add_widget(main_form, new_button(10, 40, 100, 40, "OK.")).unwrap();
    (ui, main_form, second_form, main_label, main_button)
}

fn order(ui: &UI) -> Vec<i32> {
    ui.render()
        .iter()
        .map(|j| match j {
            RenderJob::Form { index, .. } => *index,
            RenderJob::Button { index, .. } => *index,
            RenderJob::Label { index, .. } => *index,
            RenderJob::Nul => -1,
        })
        .collect()
}

fn button_state(ui: &UI, handle: i32) -> (bool, bool) {
    for j in ui.render() {
        if let RenderJob::Button { index, pressed, focus, .. } = j {
            if index == handle {
                return (pressed, focus);
            }
        }
    }
    panic!("no button job");
}

#[test]
fn children_follow_their_parent() {
    let (ui, main_form, second_form, main_label, main_button) = demo();
    // Each child goes right after its parent, so the later child comes first.
    assert_eq!(order(&ui), vec![main_form, main_button, main_label, second_form]);
    assert_eq!(ui.num_widgets(), 4);
}

#[test]
fn click_on_nested_button_presses_it_and_raises_its_form() {
    let (mut ui, main_form, second_form, main_label, main_button) = demo();
    ui.mousemove(0, 0, 80, 110);
    assert_eq!(button_state(&ui, main_button), (false, true));
    ui.mousedown();
    assert_eq!(button_state(&ui, main_button), (true, true));
    let o = order(&ui);
    let pos = |h: i32| o.iter().position(|x| *x == h).unwrap();
    assert!(pos(main_form) > pos(second_form));
    assert!(pos(main_button) > pos(main_label));
    assert!(pos(main_button) > pos(main_form));
    // The form is not dragged: the scan stopped at the button.
    ui.mousemove(80, 110, 90, 120);
    for j in ui.render() {
        if let RenderJob::Form { index, x, y, .. } = j {
            if index == main_form {
                assert_eq!((x, y), (50, 50));
            }
        }
    }
}

#[test]
fn mouse_up_releases_the_button() {
    let (mut ui, _, _, _, main_button) = demo();
    ui.mousemove(0, 0, 80, 110);
    ui.mousedown();
    ui.mouseup();
    assert_eq!(button_state(&ui, main_button), (false, true));
}

#[test]
fn leaving_a_pressed_button_releases_it() {
    let (mut ui, _, _, _, main_button) = demo();
    ui.mousemove(0, 0, 80, 110);
    ui.mousedown();
    ui.mousemove(80, 110, 700, 500);
    assert_eq!(button_state(&ui, main_button), (false, false));
}

#[test]
fn dragging_a_form_moves_it_and_its_children() {
    let (mut ui, main_form, _, _, main_button) = demo();
    // Over the form but not over its button.
    ui.mousemove(0, 0, 60, 60);
    ui.mousedown();
    ui.mousemove(60, 60, 70, 75);
    let mut seen = 0;
    for j in ui.render() {
        match j {
            RenderJob::Form { index, x, y, .. } if index == main_form => {
                assert_eq!((x, y), (60, 65));
                seen += 1;
            }
            RenderJob::Button { index, x, y, .. } if index == main_button => {
                assert_eq!((x, y), (70, 105));
                seen += 1;
            }
            _ => {}
        }
    }
    assert_eq!(seen, 2);
    ui.mouseup();
    ui.mousemove(70, 75, 80, 80);
    for j in ui.render() {
        if let RenderJob::Form { index, x, y, .. } = j {
            if index == main_form {
                assert_eq!((x, y), (60, 65));
            }
        }
    }
}

#[test]
fn only_the_topmost_overlapping_sibling_gets_focus() {
    let (mut ui, main_form, second_form, _, _) = demo();
    // (150, 150) is inside both root forms; the second one is drawn later.
    ui.mousemove(0, 0, 150, 150);
    let mut focused = vec![];
    for j in ui.render() {
        if let RenderJob::Form { index, focus, .. } = j {
            if focus {
                focused.push(index);
            }
        }
    }
    assert_eq!(focused, vec![second_form]);
    assert_ne!(focused, vec![main_form]);
}

#[test]
fn children_are_clipped_to_their_parent() {
    let mut ui = UI::new(800, 600);
    let f = ui.add_widget(-1, new_form(10, 10, 100, 100, "f")).unwrap();
    let b = ui.add_widget(f, new_button(50, 80, 100, 40, "b")).unwrap();
    for j in ui.render() {
        if let RenderJob::Button { index, x, y, w, h, .. } = j {
            assert_eq!(index, b);
            assert_eq!((x, y, w, h), (60, 90, 50, 20));
        }
    }
}

#[test]
fn render_uses_the_screen_rectangle_for_roots() {
    // A root wider than the screen is clipped at the screen's width.
    let mut ui = UI::new(800, 600);
    let f = ui.add_widget(-1, new_form(700, 0, 200, 100, "wide")).unwrap();
    for j in ui.render() {
        if let RenderJob::Form { index, w, .. } = j {
            assert_eq!(index, f);
            assert_eq!(w, 100);
        }
    }
}

#[test]
fn labels_never_take_focus() {
    let mut ui = UI::new(800, 600);
    let l = ui.add_widget(-1, new_label(0, 0, "text")).unwrap();
    ui.mousemove(0, 0, 5, 5);
    ui.mousedown();
    for j in ui.render() {
        if let RenderJob::Label { index, x, y, ref text } = j {
            assert_eq!(index, l);
            assert_eq!((x, y), (0, 0));
            assert_eq!(text, "text");
        }
    }
}

#[test]
fn unknown_parent_is_refused() {
    let mut ui = UI::new(800, 600);
    assert_eq!(ui.add_widget(3, new_label(0, 0, "x")), Err(UiError::UnknownParent));
    assert_eq!(ui.add_widget(-7, new_label(0, 0, "x")), Err(UiError::UnknownParent));
    assert_eq!(ui.num_widgets(), 0);
    assert_eq!(ui.add_widget(-1, new_label(0, 0, "x")), Ok(0));
}

#[test]
fn promotion_moves_a_subtree_behind_its_siblings() {
    let mut ui = UI::new(800, 600);
    let a = ui.add_widget(-1, new_form(0, 0, 10, 10, "a")).unwrap();
    let a1 = ui.add_widget(a, new_label(0, 0, "a1")).unwrap();
    let b = ui.add_widget(-1, new_form(0, 0, 10, 10, "b")).unwrap();
    let c = ui.add_widget(-1, new_form(0, 0, 10, 10, "c")).unwrap();
    ui.move_widget_to_front(0);
    assert_eq!(order(&ui), vec![b, c, a, a1]);
}

#[test]
fn inside_rect_leaves_out_the_last_row_and_column() {
    let r = Rect { x: 0, y: 0, w: 10, h: 10 };
    assert!(inside_rect(r, 0, 0));
    assert!(inside_rect(r, 8, 8));
    assert!(!inside_rect(r, 9, 0));
    assert!(!inside_rect(r, -1, 0));
}

#[test]
fn coordinates_saturate() {
    assert_eq!(sat_add(i32::MAX, 5), i32::MAX);
    assert_eq!(sat_add(i32::MIN, -5), i32::MIN);
    assert_eq!(sat_add(3, 4), 7);
}

#[test]
fn text_jobs_copy_their_text() {
    match render_text(4, 1, 2, "hi") {
        RenderJob::Label { index, x, y, text } => {
            assert_eq!((index, x, y), (4, 1, 2));
            assert_eq!(text, "hi");
        }
        _ => panic!("wrong job"),
    }
    match new_button(1, 2, 3, 4, "b") {
        Widget::Button { pressed, text, .. } => {
            assert!(!pressed);
            assert_eq!(text, "b");
        }
        _ => panic!("wrong widget"),
    }
}

#[test]
fn overlapping_sibling_buttons_press_only_the_topmost() {
    let mut ui = UI::new(800, 600);
    let f = ui.add_widget(-1, new_form(0, 0, 300, 300, "f")).unwrap();
    let b1 = ui.add_widget(f, new_button(10, 10, 100, 40, "one")).unwrap();
    let b2 = ui.add_widget(f, new_button(20, 20, 100, 40, "two")).unwrap();
    // b2 was inserted right after the form, so b1 is drawn last and on top.
    ui.mousemove(0, 0, 50, 30);
    ui.mousedown();
    let mut pressed = vec![];
    for j in ui.render() {
        if let RenderJob::Button { index, pressed: true, .. } = j {
            pressed.push(index);
        }
    }
    assert_eq!(pressed, vec![b1]);
    assert_ne!(pressed, vec![b2]);
}

#[test]
fn handles_survive_insertions_and_promotions() {
    let mut ui = UI::new(800, 600);
    let a = ui.add_widget(-1, new_form(0, 0, 100, 100, "a")).unwrap();
    let b = ui.add_widget(-1, new_form(0, 0, 100, 100, "b")).unwrap();
    let a1 = ui.add_widget(a, new_label(0, 0, "a1")).unwrap();
    let a2 = ui.add_widget(a, new_label(0, 0, "a2")).unwrap();
    ui.move_widget_to_front(0);
    let b1 = ui.add_widget(b, new_label(0, 0, "b1")).unwrap();
    ui.mousemove(0, 0, 5, 5);
    ui.mousedown();
    ui.mouseup();
    let mut names = vec![];
    for j in ui.render() {
        match j {
            RenderJob::Form { index, title, .. } => names.push((index, title)),
            RenderJob::Label { index, text, .. } => names.push((index, text)),
            _ => {}
        }
    }
    names.sort();
    let expected: Vec<(i32, String)> = vec![
        (a, "a".to_string()),
        (b, "b".to_string()),
        (a1, "a1".to_string()),
        (a2, "a2".to_string()),
        (b1, "b1".to_string()),
    ];
    assert_eq!(names, expected);
}

#[test]
fn hit_testing_uses_the_rendered_rectangles() {
    let (mut ui, _, _, _, main_button) = demo();
    let mut rect = None;
    for j in ui.render() {
        if let RenderJob::Button { index, x, y, w, h, .. } = j {
            if index == main_button {
                rect = Some((x, y, w, h));
            }
        }
    }
    let (x, y, w, h) = rect.unwrap();
    ui.mousemove(0, 0, x, y);
    assert_eq!(button_state(&ui, main_button), (false, true));
    // The bottom row of the button, left of the second form.
    ui.mousemove(x, y, x + 39, y + h - 2);
    assert_eq!(button_state(&ui, main_button), (false, true));
    ui.mousemove(x + 39, y + h - 2, x - 1, y);
    assert_eq!(button_state(&ui, main_button), (false, false));
    ui.mousemove(x - 1, y, x + w - 1, y);
    assert_eq!(button_state(&ui, main_button), (false, false));
}

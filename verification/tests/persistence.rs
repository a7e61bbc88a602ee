use tasklist::app::{App, AppError};
use tasklist::codec::parse_store;

#[test]
fn save_produces_expected_text() {
    let mut app = App::new();
    app.add_task(String::from("buy milk"));
    app.add_task(String::from("walk dog"));
    app.next_task();
    app.toggle_task();
    let text = app.save_tasks();
    assert_eq!(
        text,
        "[[tasks]]\nid=0\nname=\"buy milk\"\ndone=true\n[[tasks]]\nid=1\nname=\"walk dog\"\ndone=false\n"
    );
}

#[test]
fn round_trip_preserves_every_field_and_order() {
    let mut app = App::new();
    app.add_task(String::from("plain"));
    app.add_task(String::from("with \"quotes\" and \\backslash\\"));
    app.add_task(String::from("line\nbreak and\ttab"));
    app.add_task(String::from("  spaces kept  "));
    app.add_task(String::from("unicode \u{00e9}\u{4e16}\u{754c}"));
    app.add_task(String::from(""));
    app.next_task();
    app.toggle_task();
    let text = app.save_tasks();

    let mut fresh = App::new();
    fresh.load_tasks(Some(&text)).unwrap();
    assert_eq!(fresh.tasks.len(), app.tasks.len());
    for i in 0..app.tasks.len() {
        assert_eq!(fresh.tasks[i].id, app.tasks[i].id);
        assert_eq!(fresh.tasks[i].name, app.tasks[i].name);
        assert_eq!(fresh.tasks[i].done, app.tasks[i].done);
    }
}

#[test]
fn load_seeds_allocator_past_largest_id() {
    let text = "[[tasks]]\nid=0\nname=\"a\"\ndone=false\n\
                [[tasks]]\nid=2\nname=\"b\"\ndone=true\n\
                [[tasks]]\nid=5\nname=\"c\"\ndone=false\n";
    let mut app = App::new();
    app.load_tasks(Some(text)).unwrap();
    assert_eq!(app.tasks.len(), 3);
    assert_eq!(app.next_id, 6);
    app.add_task(String::from("d"));
    assert_eq!(app.tasks[3].id, 6);
}

#[test]
fn load_missing_store_yields_empty_list_and_zero_seed() {
    let mut app = App::new();
    app.add_task(String::from("stale"));
    let r = app.load_tasks(None);
    assert!(r.is_ok());
    assert_eq!(app.tasks.len(), 0);
    assert_eq!(app.next_id, 0);
    assert_eq!(app.selected, None);
    app.add_task(String::from("first"));
    assert_eq!(app.tasks[0].id, 0);
}

#[test]
fn load_corrupt_store_is_deserialization_error() {
    let mut app = App::new();
    app.add_task(String::from("keep"));
    let r = app.load_tasks(Some("this is not a store"));
    assert!(matches!(r, Err(AppError::Deserialization)));
    assert_eq!(app.tasks.len(), 1);
    assert_eq!(app.tasks[0].name, "keep");
}

#[test]
fn scenario_add_toggle_save_load() {
    let mut app = App::new();
    app.add_task(String::from("buy milk"));
    app.next_task();
    app.toggle_task();
    let text = app.save_tasks();
    let mut fresh = App::new();
    fresh.load_tasks(Some(&text)).unwrap();
    assert_eq!(fresh.tasks.len(), 1);
    assert_eq!(fresh.tasks[0].id, 0);
    assert_eq!(fresh.tasks[0].name, "buy milk");
    assert!(fresh.tasks[0].done);
}

#[test]
fn reader_ignores_field_order_blank_lines_and_spacing() {
    let text = "\n  \n[[tasks]]\n done = true \nname = \"x\"\n  id  =  007  \n\n";
    let parsed = parse_store(text).unwrap();
    assert_eq!(parsed.tasks.len(), 1);
    assert_eq!(parsed.tasks[0].id, 7);
    assert_eq!(parsed.tasks[0].name, "x");
    assert!(parsed.tasks[0].done);
}

#[test]
fn reader_rejects_malformed_stores() {
    assert!(parse_store("id=1\n").is_none());
    assert!(parse_store("[[tasks]]\nid=1\nname=\"a\"\n").is_none());
    assert!(parse_store("[[tasks]]\nid=1\nid=2\nname=\"a\"\ndone=true\n").is_none());
    assert!(parse_store("[[tasks]]\nid=x\nname=\"a\"\ndone=true\n").is_none());
    assert!(parse_store("[[tasks]]\nid=1\nname=a\ndone=true\n").is_none());
    assert!(parse_store("[[tasks]]\nid=1\nname=\"a\ndone=true\n").is_none());
    assert!(parse_store("[[tasks]]\nid=1\nname=\"a\"\ndone=maybe\n").is_none());
    assert!(parse_store("[[tasks]]\nid=1\nname=\"a\"\ncolor=red\ndone=true\n").is_none());
    assert!(parse_store("[[tasks]]\nid=18446744073709551615\nname=\"a\"\ndone=true\n").is_none());
}

#[test]
fn reader_accepts_empty_store_text() {
    let parsed = parse_store("").unwrap();
    assert_eq!(parsed.tasks.len(), 0);
    let parsed2 = parse_store("\n \n").unwrap();
    assert_eq!(parsed2.tasks.len(), 0);
}

#[test]
fn escaped_name_text_is_readable() {
    let mut app = App::new();
    app.add_task(String::from("say \"hi\"\nnow"));
    let text = app.save_tasks();
    assert_eq!(text, "[[tasks]]\nid=0\nname=\"say \\\"hi\\\"\\nnow\"\ndone=false\n");
}

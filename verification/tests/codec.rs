use protocol::codec::{decode, encode, Frame};

#[test]
fn verdicts_keep_their_fields() {
    let end = Frame::decode("END 3 cancel=1").expect("parses");
    assert_eq!(end.name, "");
    assert_eq!(end.field("cancel"), Some("1"));

    let rewrite = Frame::decode("END 4 set.next=19849").expect("parses");
    assert_eq!(rewrite.rewrites(), vec![("next".into(), "19849".into())]);
}

#[test]
fn named_frames_still_parse() {
    let cmd = Frame::decode("CMD 7 player.teleport x=1 y=2").expect("parses");
    assert_eq!(cmd.name, "player.teleport");
    assert_eq!(cmd.field("y"), Some("2"));
}

#[test]
fn round_trips_through_encode() {
    let mut frame = Frame::new("EVT", 9, "item.pickup");
    frame.fields.push(("name".into(), "Lesser Healing Potion".into()));
    let back = Frame::decode(&frame.encode()).expect("parses");
    assert_eq!(back.name, "item.pickup");
    assert_eq!(back.field("name"), Some("Lesser Healing Potion"));
}

fn held(frame: &Frame) -> (String, u64, String, Vec<(String, String)>) {
    (frame.verb.clone(), frame.seq, frame.name.clone(), frame.fields.clone())
}

#[test]
fn only_what_breaks_a_frame_is_escaped() {
    assert_eq!(encode("a b=c%d\ne\rf"), "a%20b%3Dc%25d%0Ae%0Df");
    assert_eq!(encode("Lösung: 5/3 & \"x\""), "Lösung:%205/3%20&%20\"x\"");
    assert_eq!(encode(""), "");
}

#[test]
fn an_escape_stands_for_its_character() {
    assert_eq!(decode("a%20b%3Dc%25d%0Ae%0Df"), "a b=c%d\ne\rf");
    assert_eq!(decode("%e4%E4"), "ää");
    assert_eq!(decode("100%"), "100%");
    assert_eq!(decode("%2"), "%2");
    assert_eq!(decode("%zz"), "%zz");
    assert_eq!(decode("%+5"), "\u{5}");
    assert_eq!(decode("%5+"), "%5+");
    assert_eq!(decode("größe%20ß"), "größe ß");
}

#[test]
fn text_survives_the_wire() {
    for text in ["", "%", "%20", " = \n\r%", "ä%41", "a=b=c", "50%zz"] {
        assert_eq!(decode(&encode(text)), text);
    }
}

#[test]
fn a_frame_is_one_line() {
    let mut frame = Frame::new("ASK", 3, "health.damage");
    frame.fields.push(("entity".into(), "player".into()));
    frame.fields.push(("damage".into(), "553".into()));
    assert_eq!(frame.encode(), "ASK 3 health.damage entity=player damage=553");
    assert_eq!(held(&Frame::decode(&frame.encode()).expect("parses")), held(&frame));
}

#[test]
fn a_frame_without_a_name_goes_on_to_its_fields() {
    let mut frame = Frame::new("RES", 7, "");
    assert_eq!(frame.encode(), "RES 7");
    frame.fields.push(("ok".into(), "1".into()));
    assert_eq!(frame.encode(), "RES 7 ok=1");
    frame.fields.push(("gold".into(), "104233".into()));
    assert_eq!(frame.encode(), "RES 7 ok=1 gold=104233");
    for line in ["END 3 ok=1", "END 3 cancel=1", "END 3 set.next=19849", "RES 8 err=no%20hero"] {
        assert_eq!(Frame::decode(line).expect("parses").encode(), line);
    }
}

#[test]
fn every_key_and_value_is_read_back() {
    let mut frame = Frame::new("RES", u64::MAX, "");
    frame.fields.push(("a key".into(), "x = y\n%".into()));
    frame.fields.push(("empty".into(), "".into()));
    frame.fields.push(("a key".into(), "again".into()));
    let back = Frame::decode(&frame.encode()).expect("parses");
    assert_eq!(held(&back), held(&frame));
    assert_eq!(back.field("a key"), Some("x = y\n%"));
    assert_eq!(back.field("missing"), None);
}

#[test]
fn an_empty_key_is_not_read_back() {
    let mut frame = Frame::new("RES", 1, "");
    frame.fields.push(("".into(), "x".into()));
    let back = Frame::decode(&frame.encode()).expect("parses");
    assert!(back.fields.is_empty());
}

#[test]
fn goodbye_needs_no_number() {
    let bye = Frame::decode("BYE").expect("parses");
    assert_eq!(held(&bye), ("BYE".into(), 0, "".into(), vec![]));
    assert_eq!(held(&Frame::decode("BYE 7 now x=1").expect("parses")), held(&bye));
}

#[test]
fn a_line_without_a_number_is_no_frame() {
    assert!(Frame::decode("").is_none());
    assert!(Frame::decode("   ").is_none());
    assert!(Frame::decode("EVT").is_none());
    assert!(Frame::decode("EVT x").is_none());
    assert!(Frame::decode("EVT -1").is_none());
    assert!(Frame::decode("EVT 18446744073709551616").is_none());
    assert!(Frame::decode("hello from a mod").is_none());
    assert_eq!(Frame::decode("EVT 18446744073709551615").expect("parses").seq, u64::MAX);
}

#[test]
fn extra_spaces_do_not_count() {
    let frame = Frame::decode("  CMD   8  player.gold   value=104233 ").expect("parses");
    assert_eq!(frame.name, "player.gold");
    assert_eq!(frame.field("value"), Some("104233"));
}

#[test]
fn the_session_of_the_protocol_parses() {
    let lines = [
        "EVT 1 session.world_loaded",
        "EVT 2 hero.captured class=9 className=Daemon level=142 hp=27127 maxHp=27127",
        "ASK 3 health.damage entity=player damage=553 current=19849 next=19296 max=26999",
        "END 3 set.next=19849",
        "EVT 4 entity.death type=TYPE_NPC_SPIDER_M2 level=42 ref=903",
        "ASK 5 item.pickup ref=8814 name=TYPE_OBJECT_RING_FIRE01 level=30 player=1",
        "END 5 set.ref=8901",
        "CMD 1 player.gold",
        "RES 1 ok=1 gold=104233",
    ];
    for line in lines {
        let frame = Frame::decode(line).expect("parses");
        assert_eq!(frame.encode(), line);
    }
    let verdict = Frame::decode(lines[3]).expect("parses");
    assert_eq!(verdict.rewrites(), vec![("next".to_string(), "19849".to_string())]);
}

use libks_ini::{ConcreteSection, Ini, Item, Padding, Source, Span};

#[test]
fn round_trip_keeps_text() {
    let texts = [
        "",
        "a=b",
        ";c\n[S]\nK = V  \n",
        "x\r\ny\rz\n",
        "  [ A ]  \r\n  k  =  v  \r;  note\n\n[Broken\n=\n",
        "[A]\n[a]\nX=1\n[B]\nY=2",
    ];
    for text in texts {
        assert_eq!(Ini::new(text).to_string(), text);
    }
}

#[test]
fn reparse_is_stable() {
    let text = "[A]\r\nX = 1\n[a]\n; c\nbad line\n";
    let once = Ini::new(text).to_string();
    let twice = Ini::new(&once).to_string();
    assert_eq!(once, twice);
}

#[test]
fn lookup_ignores_case() {
    let ini = Ini::new("[World]\nName=The Machine\n");
    assert_eq!(ini.get_in("World", "Name"), ini.get_in("WORLD", "name"));
    assert_eq!(ini.get_in("wOrLd", "NAME"), Some("The Machine"));
    assert!(ini.has_section("WORLD"));
}

#[test]
fn last_write_within_section_wins() {
    let ini = Ini::new("[A]\nX=1\nX=2");
    assert_eq!(ini.get_in("A", "X"), Some("2"));
}

#[test]
fn most_recent_section_wins_and_remove_clears_all() {
    let mut ini = Ini::new("[A]\nX=1\n[A]\nX=2");
    assert_eq!(ini.get_in("A", "X"), Some("2"));
    ini.remove_in("A", "X");
    assert_eq!(ini.get_in("A", "X"), None);
    assert!(!ini.has_in("A", "X"));
    assert_eq!(ini.to_string(), "[A]\n[A]\n");
}

#[test]
fn new_key_goes_to_earliest_section() {
    let mut ini = Ini::new("[A]\nX=1\n[A]\nY=5");
    ini.set_in("A", "Z", "9".to_string());
    assert_eq!(ini.to_string(), "[A]\nX=1\nZ=9\n[A]\nY=5");
    assert_eq!(ini.get_in("A", "Z"), Some("9"));
}

#[test]
fn set_updates_later_override() {
    let mut ini = Ini::new("[A]\nX=1\n[A]\nX=2\n");
    ini.set_in("a", "x", "3".to_string());
    assert_eq!(ini.to_string(), "[A]\nX=1\n[A]\nX=3\n");
    assert_eq!(ini.get_in("A", "X"), Some("3"));
}

#[test]
fn set_keeps_padding_of_existing_property() {
    let mut ini = Ini::new("[S]\n  K  =  V  \r\n");
    ini.set_in("S", "k", "W".to_string());
    assert_eq!(ini.to_string(), "[S]\n  K  =  W  \r\n");
}

#[test]
fn set_on_missing_section_appends_it() {
    let mut ini = Ini::new("a=b\n");
    ini.set_in("New", "K", "V".to_string());
    assert_eq!(ini.to_string(), "a=b\n[New]\nK=V\n");
    assert!(ini.has_section("new"));
    assert_eq!(ini.get_in("NEW", "k"), Some("V"));
}

#[test]
fn comment_scenario_round_trips() {
    let text = ";c\n[S]\nK = V  \n";
    let ini = Ini::new(text);
    assert_eq!(ini.to_string(), text);
    assert_eq!(ini.get_in("S", "K"), Some("V"));
}

#[test]
fn duplicate_sections_scenario() {
    let mut ini = Ini::new("[S]\nA=1\n[S]\nA=2\n");
    assert_eq!(ini.get_in("S", "A"), Some("2"));
    ini.remove_in("S", "A");
    assert!(!ini.has_in("S", "A"));
    let out = ini.to_string();
    assert!(!out.contains("A=1"));
    assert!(!out.contains("A=2"));
}

#[test]
fn malformed_header_scenario() {
    let text = "[Broken\nK=V\n";
    let ini = Ini::new(text);
    assert_eq!(ini.to_string(), text);
    assert!(!ini.has_section("Broken"));
    assert_eq!(ini.get_in("Broken", "K"), None);
}

#[test]
fn global_section_is_not_addressable() {
    let ini = Ini::new("K=V\n[S]\n");
    assert!(!ini.has_section(""));
    assert_eq!(ini.get_in("", "K"), None);
    assert!(ini.section("S").is_some());
    assert!(ini.section("T").is_none());
}

#[test]
fn rename_in_relabels_and_drops_target() {
    let mut ini = Ini::new("[S]\nOld=1\nNew=2\n[s]\nold=3\n");
    ini.rename_in("S", "old", "New");
    assert_eq!(ini.to_string(), "[S]\nNew=1\n[s]\nNew=3\n");
    assert_eq!(ini.get_in("S", "new"), Some("3"));
    assert!(!ini.has_in("S", "old"));
}

#[test]
fn remove_section_drops_every_copy() {
    let mut ini = Ini::new(";top\n[A]\nX=1\n[B]\nY=2\n[a]\nZ=3\n");
    ini.remove_section("A");
    assert_eq!(ini.to_string(), ";top\n[B]\nY=2\n");
    assert!(!ini.has_section("a"));
    assert_eq!(ini.get_in("B", "Y"), Some("2"));
}

#[test]
fn rename_section_replaces_target() {
    let mut ini = Ini::new("[A]\nX=1\n[B]\nY=2\n[a]\nZ=3\n");
    ini.rename_section("a", "B");
    assert_eq!(ini.to_string(), "[B]\nX=1\n[B]\nZ=3\n");
    assert_eq!(ini.get_in("b", "Z"), Some("3"));
    assert_eq!(ini.get_in("B", "Y"), None);
    assert!(!ini.has_section("A"));
}

#[test]
fn virtual_section_reads_group() {
    let ini = Ini::new("[A]\nX=1\nY=2\n[B]\n[a]\nX=3\n");
    let view = ini.section("a").unwrap();
    assert_eq!(view.key(), "A");
    assert_eq!(view.get("x"), Some("3"));
    assert!(view.has("Y"));
    assert!(!view.has("Z"));
    assert_eq!(view.iter(), vec![("X", "1"), ("Y", "2"), ("X", "3")]);
}

#[test]
fn virtual_section_mut_edits_group() {
    let mut ini = Ini::new("[A]\nX=1\n[a]\nY=2\n");
    {
        let mut view = ini.section_mut("A").unwrap();
        assert_eq!(view.key(), "A");
        view.set("Y", "5".to_string());
        view.set("Z", "6".to_string());
        assert_eq!(view.get("y"), Some("5"));
        view.rename("X", "W");
        assert!(view.has("w"));
    }
    assert_eq!(ini.to_string(), "[A]\nW=1\nZ=6\n[a]\nY=5\n");
    {
        let mut view = ini.section_mut("a").unwrap();
        view.remove("z");
        view.set_key("C");
    }
    assert_eq!(ini.to_string(), "[C]\nW=1\n[C]\nY=5\n");
    assert!(ini.section_mut("A").is_none());
}

#[test]
fn append_section_reuses_or_creates() {
    let mut ini = Ini::new("[A]\nX=1\n");
    {
        let mut view = ini.append_section("a");
        view.set("Y", "2".to_string());
    }
    {
        let mut view = ini.append_section("B");
        assert_eq!(view.key(), "B");
        view.set("Z", "3".to_string());
    }
    assert_eq!(ini.to_string(), "[A]\nX=1\nY=2\n[B]\nZ=3\n");
}

#[test]
fn concrete_section_operations() {
    let source = Source::new("");
    let header = Item::Section(Span::owned("S"), Padding(Span::owned(""), Span::owned("\n")));
    let mut section = ConcreteSection::new(header);
    assert_eq!(section.key(&source), "S");
    assert_eq!(section.replace(&source, "K", "1".to_string()), Some("1".to_string()));
    section.set(&source, "K", "1".to_string());
    section.set(&source, "L", "2".to_string());
    assert_eq!(section.replace(&source, "k", "3".to_string()), None);
    assert_eq!(section.get(&source, "K"), Some("3"));
    assert!(section.has(&source, "l"));
    assert_eq!(section.iter(&source), vec![("K", "3"), ("L", "2")]);
    section.rename(&source, "K", "L");
    assert_eq!(section.iter(&source), vec![("L", "3")]);
    section.remove(&source, "l");
    assert!(!section.has(&source, "L"));
    section.set_key("T");
    assert_eq!(section.key(&source), "T");
    let mut out = String::new();
    section.push_to(&mut out, &source);
    assert_eq!(out, "[T]\n");
}

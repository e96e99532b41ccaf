use home_iptv_proxy::attributes::{attribute, set_attribute};

#[test]
fn direct_keeps_replay_metadata() {
    let info = "#EXTINF:-1 catchup=\"default\" catchup-source=\"http://origin/replay\",CCTV1";
    assert!(
        set_attribute(info, "access-mode", "direct")
            .contains("catchup-source=\"http://origin/replay\"")
    );
}

#[test]
fn the_leftmost_attribute_is_read() {
    let line = "#EXTINF:-1 a=\"1\" a=\"2\" b=\"\",name c=\"3\"";
    assert_eq!(attribute(line, "a").as_deref(), Some("1"));
    assert_eq!(attribute(line, "b").as_deref(), Some(""));
    assert_eq!(attribute(line, "c").as_deref(), Some("3"));
    assert_eq!(attribute(line, "d"), None);
    assert_eq!(attribute("x a=\"open", "a"), None);
    assert_eq!(attribute("名称=\"频道\"", "名称").as_deref(), Some("频道"));
}

#[test]
fn an_attribute_is_replaced_or_added_before_the_name() {
    assert_eq!(
        set_attribute("#EXTINF:-1 a=\"1\" b=\"2\",x,y", "a", "new"),
        "#EXTINF:-1 a=\"new\" b=\"2\",x,y"
    );
    assert_eq!(
        set_attribute("#EXTINF:-1,x a=\"1\"", "a", "new"),
        "#EXTINF:-1 a=\"new\",x a=\"1\""
    );
    assert_eq!(set_attribute("#EXTINF:-1", "a", "new"), "#EXTINF:-1");
    assert_eq!(
        set_attribute("#EXTINF:-1 a=\"open,x,y", "a", "new"),
        "#EXTINF:-1 a=\"open a=\"new\",x,y"
    );
}

#[test]
fn what_is_set_is_read_back() {
    let line = "#EXTINF:-1 tvg-id=\"1\" source-name=\"old\",CCTV1";
    for (name, value) in [("source-name", "GITV"), ("access-mode", "proxy"), ("tvg-id", "")] {
        let after = set_attribute(line, name, value);
        assert_eq!(attribute(&after, name).as_deref(), Some(value));
    }
}

#[test]
fn the_other_attributes_stay() {
    let line = "#EXTINF:-1 tvg-id=\"1\" catchup=\"append\" catchup-source=\"?s=1\",CCTV1";
    let named = set_attribute(line, "source-name", "A, \"B\"");
    let after = set_attribute(&named, "access-mode", "direct");
    for name in ["tvg-id", "catchup", "catchup-source"] {
        assert_eq!(attribute(&after, name), attribute(line, name));
    }
}

#[test]
fn a_comma_in_a_replay_value_does_not_end_the_attributes() {
    let line = "#EXTINF:-1 catchup-source=\"http://o/r?a=1,2\" group=\"A, B\",CCTV1, HD";
    assert_eq!(
        set_attribute(line, "access-mode", "direct"),
        "#EXTINF:-1 catchup-source=\"http://o/r?a=1,2\" access-mode=\"direct\" group=\"A, B\",CCTV1, HD"
    );
    assert_eq!(
        set_attribute(line, "catchup-source", "x,y"),
        "#EXTINF:-1 catchup-source=\"x,y\" group=\"A, B\",CCTV1, HD"
    );
    let nameless = "#EXTINF:-1 catchup=\"a,b\"";
    assert_eq!(
        set_attribute(nameless, "n", "v"),
        "#EXTINF:-1 catchup=\"a,b\" n=\"v\""
    );
    assert_eq!(set_attribute(nameless, "catchup", "v"), "#EXTINF:-1 catchup=\"v\"");
    let speaking = "#EXTINF:-1 catchup=\"a,n=\",C";
    assert_eq!(
        set_attribute(speaking, "n", "v"),
        "#EXTINF:-1 n=\"v\" catchup=\"a,n=\",C"
    );
    let open = "#EXTINF:-1 catchup=\"a,C";
    assert_eq!(
        set_attribute(open, "n", "v"),
        "#EXTINF:-1 catchup=\"a n=\"v\",C"
    );
}

#[test]
fn the_first_comma_ends_the_attributes_otherwise() {
    assert_eq!(set_attribute("x=\"a,b\"", "n", "v"), "x=\"a n=\"v\",b\"");
    assert_eq!(attribute("x=\"a n=\"v\",b\"", "n").as_deref(), Some("v"));
    assert_eq!(
        set_attribute("#EXTINF:-1 a=\"1,2\",TV", "a", "new"),
        "#EXTINF:-1 a=\"1 a=\"new\",2\",TV"
    );
}

#[test]
fn the_last_write_wins() {
    for line in [
        "#EXTINF:-1,C",
        "#EXTINF:-1",
        "#EXTINF:-1 n=\"old\" x=\"1\",C",
        "a=\"x,n=\"y,z",
        "x=\"a,b\"",
        "catchup=\"a,b\" n=\"c\",d",
        "catchup=\"a,b\" n=\"c,d\"",
        "catchup-source=\"a,b\",C",
        "catchup-source=\"a,n=\",C \"q\"",
    ] {
        for value in ["v", "catchup="] {
            let first = set_attribute(line, "n", value);
            for last in ["w", "v", "", "x,y", "q\"q", "catchup="] {
                assert_eq!(
                    set_attribute(&first, "n", last),
                    set_attribute(line, "n", last),
                    "{line}"
                );
            }
            if line.contains(',') {
                assert_eq!(attribute(&first, "n").as_deref(), Some(value), "{line}");
            }
        }
    }
}

#[test]
fn names_with_spaces_are_read_back() {
    let after = set_attribute("#EXTINF:-1 the,CCTV1", "the name", "x");
    assert_eq!(after, "#EXTINF:-1 the the name=\"x\",CCTV1");
    assert_eq!(attribute(&after, "the name").as_deref(), Some("x"));
}

use clog::wikilink::Segment;
use clog::wikilink::WikiLink;

#[test]
fn extract() {
    let data = "[[One]] [[Two|TWO]]\n[[Three|THREE]] [[Four Five]]";
    let captures = WikiLink::extract(data);
    assert_eq!(
        captures,
        vec![
            WikiLink { name: "One".to_string(), display: None },
            WikiLink { name: "Two".to_string(), display: Some("TWO".to_string()) },
            WikiLink { name: "Three".to_string(), display: Some("THREE".to_string()) },
            WikiLink { name: "Four Five".to_string(), display: None },
        ]
    )
}

#[test]
fn segment() {
    fn work(data: &str) -> Vec<Segment> {
        WikiLink::segment(data)
    }
    assert_eq!(work("nothing"), vec![Segment::Normal("nothing".to_string())]);
    assert_eq!(
        work("start [[link 1]] middle [[link 2]] end"),
        vec![
            Segment::Normal("start ".to_string()),
            Segment::Link(WikiLink { display: None, name: "link 1".to_string() }),
            Segment::Normal(" middle ".to_string()),
            Segment::Link(WikiLink { display: None, name: "link 2".to_string() }),
            Segment::Normal(" end".to_string()),
        ]
    );
}

#[test]
fn segments_cover_the_input() {
    // concatenating the segments' underlying text gives the input back
    let samples = [
        "",
        "plain",
        "[[A]]",
        "x [[A|B]] y [[C]] z",
        "broken [[ bracket",
        "[[a]b]] odd",
        "[[[x]]]",
    ];
    for s in samples {
        let mut rebuilt = String::new();
        for seg in WikiLink::segment(s) {
            match seg {
                Segment::Normal(t) => rebuilt.push_str(&t),
                Segment::Link(l) => {
                    rebuilt.push_str("[[");
                    rebuilt.push_str(&l.name);
                    if let Some(d) = &l.display {
                        rebuilt.push('|');
                        rebuilt.push_str(d);
                    }
                    rebuilt.push_str("]]");
                }
            }
        }
        assert_eq!(rebuilt, s);
    }
}

#[test]
fn permissive_bracket_handling() {
    // a pipe with no display text still matches, capturing no display
    assert_eq!(
        WikiLink::segment("x[[a|]]y"),
        vec![
            Segment::Normal("x".to_string()),
            Segment::Link(WikiLink { display: None, name: "a".to_string() }),
            Segment::Normal("y".to_string()),
        ]
    );
    // two pipes cannot match; the text passes through verbatim
    assert_eq!(
        WikiLink::segment("[[a|b|c]]"),
        vec![Segment::Normal("[[a|b|c]]".to_string())]
    );
    // the leftmost match wins inside stray brackets
    assert_eq!(
        WikiLink::segment("[[[x]]]"),
        vec![
            Segment::Normal("[".to_string()),
            Segment::Link(WikiLink { display: None, name: "x".to_string() }),
            Segment::Normal("]".to_string()),
        ]
    );
}

#[test]
fn display_or_name() {
    let named = WikiLink { display: None, name: "Page".to_string() };
    assert_eq!(named.display_or_name(), &"Page".to_string());
    let titled = WikiLink { display: Some("Click".to_string()), name: "Page".to_string() };
    assert_eq!(titled.display_or_name(), &"Click".to_string());
}

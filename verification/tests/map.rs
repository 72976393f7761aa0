use antsim::graph::ColonyGraph;
use antsim::sim::AntSimulation;
use antsim::text::{is_whitespace, parse_edge, parse_line, parse_map, split_lines, split_words};

fn chars(text: &str) -> Vec<char> {
    text.chars().collect()
}

fn string(line: &[char]) -> String {
    line.iter().collect()
}

fn strings(lines: &[Vec<char>]) -> Vec<String> {
    lines.iter().map(|l| string(l)).collect()
}

fn names(graph: &ColonyGraph) -> Vec<String> {
    (0..graph.site_count()).map(|s| string(graph.name(s))).collect()
}

fn edges(graph: &ColonyGraph) -> Vec<Vec<usize>> {
    (0..graph.site_count()).map(|s| graph.neighbors(s).to_vec()).collect()
}

#[test]
fn whitespace_is_what_char_says() {
    for code in 0..0x11_0000u32 {
        if let Some(c) = char::from_u32(code) {
            assert_eq!(is_whitespace(c), c.is_whitespace(), "U+{:04X}", code);
        }
    }
}

#[test]
fn lines_split_at_line_feeds() {
    assert_eq!(strings(&split_lines(&chars(""))), Vec::<String>::new());
    assert_eq!(strings(&split_lines(&chars("a"))), vec!["a"]);
    assert_eq!(strings(&split_lines(&chars("a\n"))), vec!["a"]);
    assert_eq!(strings(&split_lines(&chars("a\nb"))), vec!["a", "b"]);
    assert_eq!(strings(&split_lines(&chars("\n"))), vec![""]);
    assert_eq!(strings(&split_lines(&chars("a\n\nb\n"))), vec!["a", "", "b"]);
    assert_eq!(strings(&split_lines(&chars("\n\n"))), vec!["", ""]);
    let text = "Foo north=Bar\r\nBar\n";
    let expected: Vec<String> = text.split_terminator('\n').map(|l| l.to_string()).collect();
    assert_eq!(strings(&split_lines(&chars(text))), expected);
}

#[test]
fn words_split_at_white_space() {
    for line in [
        "",
        " ",
        "a",
        "  a  ",
        "Foo north=Bar  west=Baz",
        "\tFoo\u{a0}north=Bar\r",
        "a\u{3000}b\u{2003}c",
        "x=y=z  =  =a b=",
    ] {
        let expected: Vec<String> = line.split_whitespace().map(|w| w.to_string()).collect();
        assert_eq!(strings(&split_words(&chars(line))), expected, "{:?}", line);
    }
}

#[test]
fn an_edge_word_holds_exactly_one_equals_sign() {
    assert_eq!(parse_edge(&chars("north=Bar")), Some(chars("Bar")));
    assert_eq!(parse_edge(&chars("=Bar")), Some(chars("Bar")));
    assert_eq!(parse_edge(&chars("north=")), Some(chars("")));
    assert_eq!(parse_edge(&chars("=")), Some(chars("")));
    assert_eq!(parse_edge(&chars("north")), None);
    assert_eq!(parse_edge(&chars("")), None);
    assert_eq!(parse_edge(&chars("a=b=c")), None);
    assert_eq!(parse_edge(&chars("==")), None);
    assert_eq!(parse_edge(&chars("a=b=")), None);
}

#[test]
fn a_line_names_a_colony_and_its_targets() {
    let line = parse_line(&chars("Foo north=Bar junk west=Baz a=b=c south=")).unwrap();
    assert_eq!(string(&line.name), "Foo");
    assert_eq!(strings(&line.targets), vec!["Bar", "Baz", ""]);
    let bare = parse_line(&chars("  Solo ")).unwrap();
    assert_eq!(string(&bare.name), "Solo");
    assert_eq!(bare.targets.len(), 0);
    assert!(parse_line(&chars("")).is_none());
    assert!(parse_line(&chars(" \t \r")).is_none());
    // the first word is the name, whatever it holds
    let odd = parse_line(&chars("a=b c=d")).unwrap();
    assert_eq!(string(&odd.name), "a=b");
    assert_eq!(strings(&odd.targets), vec!["d"]);
}

#[test]
fn blank_lines_are_ignored() {
    let map = parse_map(&chars("\nFoo north=Bar\n\n   \nBar south=Foo\n\n"));
    assert_eq!(map.len(), 2);
    assert_eq!(string(&map[0].name), "Foo");
    assert_eq!(string(&map[1].name), "Bar");
    assert_eq!(strings(&map[1].targets), vec!["Foo"]);
    assert_eq!(parse_map(&chars("")).len(), 0);
}

#[test]
fn colonies_are_numbered_by_first_appearance() {
    let graph = ColonyGraph::parse(&chars(
        "Foo north=Bar west=Baz south=Qu-ux\nBar south=Foo west=Bee\nBaz east=Foo\n",
    ));
    assert_eq!(names(&graph), vec!["Foo", "Bar", "Baz"]);
    // edges to Qu-ux and Bee, which head no line, are dropped
    assert_eq!(edges(&graph), vec![vec![1, 2], vec![0], vec![0]]);
}

#[test]
fn a_colony_on_several_lines_collects_all_its_edges() {
    let graph = ColonyGraph::parse(&chars("A x=B\nB x=A\nA y=C y=A\nC\nB z=C\n"));
    assert_eq!(names(&graph), vec!["A", "B", "C"]);
    assert_eq!(edges(&graph), vec![vec![1, 2, 0], vec![0, 2], vec![]]);
    assert_eq!(graph.degree(0), 3);
}

#[test]
fn an_edge_may_name_a_colony_of_a_later_line() {
    let graph = ColonyGraph::parse(&chars("A north=Z\nM\nZ south=A"));
    assert_eq!(names(&graph), vec!["A", "M", "Z"]);
    assert_eq!(edges(&graph), vec![vec![2], vec![], vec![0]]);
}

#[test]
fn an_empty_map_is_an_empty_graph() {
    let graph = ColonyGraph::parse(&chars("  \n\n"));
    assert_eq!(graph.site_count(), 0);
    let lines = parse_map(&chars("A b=A"));
    let graph = ColonyGraph::from_map(&lines);
    assert_eq!(edges(&graph), vec![vec![0]]);
}

#[test]
fn a_parsed_map_runs() {
    let graph = ColonyGraph::parse(&chars("A north=B\nB\nC south=B\n"));
    let mut sim = AntSimulation::with_placement(graph, vec![0, 2], 10000, 1);
    assert_eq!(sim.run(10000), 1);
    assert_eq!(sim.stats(), (0, 2, 3));
    assert_eq!(strings(&sim.remaining_world()), vec!["A", "C"]);
}

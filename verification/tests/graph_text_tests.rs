use algoritmes::graph::{Child, Graph, Node};
use algoritmes::graph_parse::ParseError;
use algoritmes::graph_text::{digits_of, link_chars, push_left, push_right, widest_of};

fn chars(text: &str) -> Vec<char> {
    text.chars().collect()
}

fn text(chars: &Vec<char>) -> String {
    chars.iter().collect()
}

// the table as formatting by width lays it out
fn table(graph: &Graph<char>) -> String {
    let mut out = graph.nodes.len().to_string();
    let index_width = out.len();
    let mut count_width = 0;
    let mut weight_width = 0;
    let mut value_width = 0;
    for node in graph.nodes.iter() {
        count_width = count_width.max(node.children.len().to_string().len());
        value_width = value_width.max(node.val.to_string().chars().count());
        if graph.weighted {
            for child in node.children.iter() {
                weight_width = weight_width.max(child.weight.to_string().len());
            }
        }
    }
    if graph.weighted {
        weight_width += 3;
    }
    value_width += 1;
    out += "\n";
    out += &format!(
        "{:index_width$}  {:value_width$}{:count_width$}   {:width$}\n",
        "n", "v", "nc", "c",
        width = index_width + weight_width
    );
    for (i, node) in graph.nodes.iter().enumerate() {
        out += &format!(
            "{:index_width$} {:value_width$} {:count_width$}    ",
            i, node.val, node.children.len()
        );
        for child in node.children.iter() {
            out += &format!(
                "{:width$} ",
                child.get_clean_value(graph.weighted),
                width = index_width + weight_width
            );
        }
        out += "\n";
    }
    out
}

fn labels(graph: &Graph<char>) -> Vec<Vec<char>> {
    graph.nodes.iter().map(|n| vec![n.val]).collect()
}

#[test]
fn digits_and_links() {
    assert_eq!(text(&digits_of(0)), "0");
    assert_eq!(text(&digits_of(907)), "907");
    assert_eq!(text(&digits_of(u64::MAX)), u64::MAX.to_string());
    assert_eq!(text(&link_chars(&Child::new_with_weight(12, 345), true)), "12 345");
    assert_eq!(text(&link_chars(&Child::new_with_weight(12, 345), false)), "12");
    assert_eq!(widest_of(&vec![chars("ab"), chars(""), chars("abcd"), chars("a")]), 4);
    assert_eq!(widest_of(&vec![]), 0);
    let mut out = chars("[");
    push_left(&mut out, &chars("ab"), 4);
    push_right(&mut out, &chars("cd"), 5);
    push_left(&mut out, &chars("long"), 2);
    push_right(&mut out, &chars("long"), 0);
    assert_eq!(text(&out), "[ab     cdlonglong");
}

#[test]
fn render_unweighted_table() {
    let graph: Graph<char> = Graph::from(vec![
        ('a', vec![1]),
        ('b', vec![2, 3]),
        ('c', vec![3]),
        ('d', vec![4]),
        ('e', vec![0]),
    ]);
    let out = text(&graph.render(&labels(&graph), false));
    assert_eq!(out, "5\nn  v nc   c\n0 a  1    1 \n1 b  2    2 3 \n2 c  1    3 \n3 d  1    4 \n4 e  1    0 \n");
    assert_eq!(out, table(&graph));
}

#[test]
fn render_weighted_table() {
    let mut graph: Graph<char> = Graph::new();
    graph.weighted = true;
    for i in 0..12 {
        let mut node = Node::new((b'A' + i as u8) as char);
        for k in 0..(i % 4) {
            node.add_child(Child::new_with_weight((i * 7 + k) % 12, (k as u32) * 1234 + 5));
        }
        graph.add_node(node);
    }
    let out = text(&graph.render(&labels(&graph), false));
    assert_eq!(out, table(&graph));
    assert!(out.starts_with("12\nn   v nc   c        \n 0 A  0    \n 1 B  1    7 5       \n"));
}

#[test]
fn render_sets_numbers_right() {
    let graph: Graph<u32> = Graph::from(vec![(5, vec![1]), (1234, vec![])]);
    let labels: Vec<Vec<char>> = graph.nodes.iter().map(|n| chars(&n.val.to_string())).collect();
    let out = text(&graph.render(&labels, true));
    assert_eq!(out, "2\nn  v    nc   c\n0     5 1    1 \n1  1234 0    \n");
    let out = text(&graph.render(&labels, false));
    assert_eq!(out, "2\nn  v    nc   c\n0 5     1    1 \n1 1234  0    \n");
}

#[test]
fn render_empty_graph() {
    let graph: Graph<char> = Graph::new();
    assert_eq!(text(&graph.render(&vec![], false)), "0\nn  vnc   c\n");
    assert_eq!(text(&graph.render(&vec![], false)), table(&graph));
}

fn links(graph: &Graph<char>) -> Vec<(char, Vec<(usize, u32)>)> {
    graph.nodes.iter()
        .map(|n| (n.val, n.children.iter().map(|c| (c.idx, c.weight)).collect()))
        .collect()
}

#[test]
fn unweighted_from_text() {
    let text = "13\n0 A 3 1 5 6\n1 B 0\n2 C 1 0\n3 D 1 5\n4 E 1 3\n5 F 1 4\n6 G 3 2 4 9\n7 H 2 6 8\n8 I 1 7\n9 J 3 10 11 12\n10 K 0\n11 L 2 6 12\n12 M 1 11\n";
    let graph = Graph::parse(&chars(text), false).unwrap();
    assert_eq!(graph.weighted, false);
    assert_eq!(links(&graph), vec![
        ('A', vec![(1, 0), (5, 0), (6, 0)]),
        ('B', vec![]),
        ('C', vec![(0, 0)]),
        ('D', vec![(5, 0)]),
        ('E', vec![(3, 0)]),
        ('F', vec![(4, 0)]),
        ('G', vec![(2, 0), (4, 0), (9, 0)]),
        ('H', vec![(6, 0), (8, 0)]),
        ('I', vec![(7, 0)]),
        ('J', vec![(10, 0), (11, 0), (12, 0)]),
        ('K', vec![]),
        ('L', vec![(6, 0), (12, 0)]),
        ('M', vec![(11, 0)]),
    ]);
    assert_eq!(graph.is_valid(), true);
}

#[test]
fn weighted_from_text() {
    let text = "13\r\n 0  A   3   1 1   5 2   6 4\r\n1 B 0\r\n2 C 1 0 1\r\n7 H 2 6 3 8 2\r\n12 M 1 11 1";
    let graph = Graph::parse(&chars(text), true).unwrap();
    assert_eq!(graph.weighted, true);
    let got = links(&graph);
    assert_eq!(got.len(), 13);
    assert_eq!(got[0], ('A', vec![(1, 1), (5, 2), (6, 4)]));
    assert_eq!(got[1], ('B', vec![]));
    assert_eq!(got[2], ('C', vec![(0, 1)]));
    assert_eq!(got[3], ('\0', vec![]));
    assert_eq!(got[7], ('H', vec![(6, 3), (8, 2)]));
    assert_eq!(got[12], ('M', vec![(11, 1)]));
}

#[test]
fn parse_adds_up_the_links_of_a_node() {
    let graph = Graph::parse(&chars("2\n1 x 1 0\n1 y 2 1 5 ignored words\n"), false).unwrap();
    assert_eq!(links(&graph), vec![('\0', vec![]), ('y', vec![(0, 0), (1, 0), (5, 0)])]);
    assert_eq!(graph.is_valid(), false);
    let graph = Graph::parse(&chars("0"), false).unwrap();
    assert_eq!(graph.nodes.len(), 0);
    assert_eq!(graph.is_valid(), true);
}

fn error_of(text: &str, weighted: bool) -> ParseError {
    match Graph::parse(&chars(text), weighted) {
        Ok(_) => panic!("the text describes a graph"),
        Err(e) => e,
    }
}

#[test]
fn parse_errors() {
    assert_eq!(error_of("", false), ParseError::NoCount);
    assert_eq!(error_of("   \n0 a 0\n", false), ParseError::NoCount);
    assert_eq!(error_of("\n2\n", false), ParseError::NoCount);
    assert_eq!(error_of("two\n", false), ParseError::BadNumber);
    assert_eq!(error_of("2 3\n", false), ParseError::BadNumber);
    assert_eq!(error_of("-2\n", false), ParseError::BadNumber);
    assert_eq!(error_of("99999999999999999999999999\n", false), ParseError::BadNumber);
    assert_eq!(error_of("2\n0 a 1 x\n", false), ParseError::BadNumber);
    assert_eq!(error_of("2\n0 a 1 1 4294967296\n", true), ParseError::BadNumber);
    assert_eq!(error_of("2\n0\ta 0\n", false), ParseError::BadNumber);
    assert_eq!(error_of("2\n\n0 a 0\n", false), ParseError::MissingField);
    assert_eq!(error_of("2\n0\n", false), ParseError::MissingField);
    assert_eq!(error_of("2\n0 a\n", false), ParseError::MissingField);
    assert_eq!(error_of("2\n0 a 2 1\n", false), ParseError::MissingField);
    assert_eq!(error_of("2\n0 a 1 1\n", true), ParseError::MissingField);
    assert_eq!(error_of("2\n0 ab 0\n", false), ParseError::BadValue);
    assert_eq!(error_of("2\n2 a 0\n", false), ParseError::NoSuchNode);
    assert_eq!(error_of("0\n0 a 0\n", false), ParseError::NoSuchNode);
    assert!(Graph::parse(&chars("2\n0 a 1 1 4294967295\n"), true).is_ok());
}

fn word_links(graph: &Graph<String>) -> Vec<(String, Vec<(usize, u32)>)> {
    graph
        .nodes
        .iter()
        .map(|n| (n.val.clone(), n.children.iter().map(|c| (c.idx, c.weight)).collect()))
        .collect()
}

#[test]
fn words_from_text() {
    let text = "3\n0 kake 2 1 2\n2   potet 1 0\n";
    let graph = Graph::parse_words(&chars(text), false).unwrap();
    assert_eq!(graph.weighted, false);
    assert_eq!(
        word_links(&graph),
        vec![
            ("kake".to_string(), vec![(1, 0), (2, 0)]),
            (String::new(), vec![]),
            ("potet".to_string(), vec![(0, 0)]),
        ]
    );
}

#[test]
fn weighted_words_from_text() {
    let text = "2\r\n1 eple 2 0 7 1 9\r\n0 x 0";
    let graph = Graph::parse_words(&chars(text), true).unwrap();
    assert_eq!(graph.weighted, true);
    assert_eq!(
        word_links(&graph),
        vec![("x".to_string(), vec![]), ("eple".to_string(), vec![(0, 7), (1, 9)])]
    );
}

#[test]
fn word_parse_errors() {
    let error_of = |text: &str, weighted: bool| match Graph::parse_words(&chars(text), weighted) {
        Ok(_) => panic!("the text describes a graph"),
        Err(e) => e,
    };
    assert_eq!(error_of("", false), ParseError::NoCount);
    assert_eq!(error_of("2 3\n", false), ParseError::BadNumber);
    assert_eq!(error_of("2\n0\n", false), ParseError::MissingField);
    assert_eq!(error_of("2\n0 kake\n", false), ParseError::MissingField);
    assert_eq!(error_of("2\n0 kake 1 x\n", false), ParseError::BadNumber);
    assert_eq!(error_of("2\n2 kake 0\n", false), ParseError::NoSuchNode);
    // a value of several characters is a word
    assert!(Graph::parse_words(&chars("2\n0 ab 0\n"), false).is_ok());
}

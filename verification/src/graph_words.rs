use vstd::prelude::*;
use crate::graph::{Child, Graph, Node};
use crate::graph_parse::{
    content_end, find_line_end, find_word, find_word_end, lemma_line_end, line_end, next_links,
    next_number, read_links, read_number, skip_spaces, word_end, ParseError,
};

verus! {

/// The word that begins at the first position from `i` on that holds no
/// space, and the position behind it.
pub open spec fn read_word(t: Seq<char>, i: int, e: int) -> Result<(Seq<char>, int), ParseError> {
    let s = skip_spaces(t, i, e);
    if s >= e {
        Err(ParseError::MissingField)
    } else {
        Ok((t.subrange(s, word_end(t, s, e)), word_end(t, s, e)))
    }
}

/// What the line from `a` to `e` says of a node whose value is a word: its
/// index, its value, and as many links as the number behind the value says.
pub open spec fn read_word_row(t: Seq<char>, a: int, e: int, weighted: bool) -> Result<
    (nat, Seq<char>, Seq<Child>),
    ParseError,
> {
    match read_number(t, a, e, usize::MAX as nat) {
        Err(x) => Err(x),
        Ok((index, p)) => match read_word(t, p, e) {
            Err(x) => Err(x),
            Ok((value, q)) => match read_number(t, q, e, usize::MAX as nat) {
                Err(x) => Err(x),
                Ok((count, r)) => match read_links(t, r, e, count, weighted, Seq::empty()) {
                    Err(x) => Err(x),
                    Ok(links) => Ok((index, value, links)),
                },
            },
        },
    }
}

/// The nodes of a graph of words as values: for each its value and its
/// links.
pub type WordModel = Seq<(Seq<char>, Seq<Child>)>;

/// The nodes `m` after a line has given node `index` the value `value`
/// and the further links `links`.
pub open spec fn with_word_row(m: WordModel, index: int, value: Seq<char>, links: Seq<Child>) -> WordModel {
    m.update(index, (value, m[index].1 + links))
}

/// The nodes `m` after the lines from position `p` on, each of which
/// speaks of one of the `m.len()` nodes.
pub open spec fn read_word_rows(t: Seq<char>, p: int, weighted: bool, m: WordModel) -> Result<
    WordModel,
    ParseError,
>
    decreases
        (if p < t.len() {
            t.len() - p
        } else {
            0
        }),
{
    if p < 0 || p >= t.len() {
        Ok(m)
    } else {
        let b = line_end(t, p);
        let e = content_end(t, p, b);
        match read_word_row(t, p, e, weighted) {
            Err(x) => Err(x),
            Ok((index, value, links)) => if index >= m.len() {
                Err(ParseError::NoSuchNode)
            } else {
                proof {
                    lemma_line_end(t, p);
                }
                read_word_rows(t, b + 1, weighted, with_word_row(m, index as int, value, links))
            },
        }
    }
}

/// `n` nodes without links, each with the empty word as its value.
pub open spec fn blank_words(n: nat) -> WordModel {
    Seq::new(n, |i: int| (Seq::<char>::empty(), Seq::<Child>::empty()))
}

/// The nodes that the text `t` describes where the value of a node is a
/// word: its first line holds the number of nodes and nothing else; each
/// further line holds, as words between spaces, the index of a node, its
/// value, the number of its links and the links, in a weighted graph each
/// with its weight behind it. A node of which no line speaks keeps the
/// empty word and has no links; the links of a node of which several lines
/// speak add up.
pub open spec fn read_words(t: Seq<char>, weighted: bool) -> Result<WordModel, ParseError> {
    let b = line_end(t, 0);
    let e = content_end(t, 0, b);
    match read_number(t, 0, e, usize::MAX as nat) {
        Err(ParseError::MissingField) => Err(ParseError::NoCount),
        Err(x) => Err(x),
        Ok((n, w)) => if skip_spaces(t, w, e) < e {
            Err(ParseError::BadNumber)
        } else {
            read_word_rows(t, b + 1, weighted, blank_words(n))
        },
    }
}

/// The string of the characters of `chars`, in their order: what
/// `String::from_iter` makes of them. That the string holds exactly these
/// characters is what the standard library says of it, and is not proved
/// here.
#[verifier::external_body]
fn string_of(chars: &Vec<char>) -> (word: String)
    ensures
        word@ == chars@,
{
    String::from_iter(chars.iter())
}

/// The word that begins at the first position from `start` on that holds
/// no space, and the position behind it.
pub fn next_word(text: &Vec<char>, start: usize, end: usize) -> (r: Result<
    (String, usize),
    ParseError,
>)
    requires
        start <= end <= text@.len(),
    ensures
        match read_word(text@, start as int, end as int) {
            Ok((v, p)) => r matches Ok(got) && got.0@ == v && got.1 == p && start <= p <= end,
            Err(x) => r matches Err(y) && y == x,
        },
{
    let at = find_word(text, start, end);
    if at >= end {
        return Err(ParseError::MissingField);
    }
    let stop = find_word_end(text, at, end);
    let mut word: Vec<char> = Vec::new();
    let mut i: usize = at;
    while i < stop
        invariant
            at <= i <= stop <= text@.len(),
            word@ == text@.subrange(at as int, i as int),
        decreases stop - i,
    {
        word.push(text[i]);
        i = i + 1;
        assert(word@ =~= text@.subrange(at as int, i as int));
    }
    Ok((string_of(&word), stop))
}

/// What a line says of a node whose value is a word.
pub struct WordRow {
    pub index: usize,
    pub value: String,
    pub links: Vec<Child>,
}

/// What the line from `start` to `end` says of a node whose value is a
/// word.
pub fn next_word_row(text: &Vec<char>, start: usize, end: usize, weighted: bool) -> (r: Result<
    WordRow,
    ParseError,
>)
    requires
        start <= end <= text@.len(),
    ensures
        match read_word_row(text@, start as int, end as int, weighted) {
            Ok((index, value, links)) => r matches Ok(row) && row.index == index && row.value@
                == value && row.links@ == links,
            Err(x) => r matches Err(y) && y == x,
        },
{
    match next_number(text, start, end, usize::MAX as u64) {
        Err(x) => Err(x),
        Ok((index, p)) => match next_word(text, p, end) {
            Err(x) => Err(x),
            Ok((value, q)) => match next_number(text, q, end, usize::MAX as u64) {
                Err(x) => Err(x),
                Ok((count, r)) => match next_links(text, r, end, count, weighted) {
                    Err(x) => Err(x),
                    Ok(links) => Ok(WordRow { index: index as usize, value, links }),
                },
            },
        },
    }
}

impl Graph<String> {
    /// The nodes as values: for each its value and its links.
    pub open spec fn word_model(&self) -> WordModel {
        Seq::new(self.nodes@.len(), |i: int| (self.nodes@[i].val@, self.nodes@[i].children@))
    }

    /// A graph of `size` nodes without links, each with the empty word.
    pub fn blank_word_graph(size: usize, weighted: bool) -> (graph: Graph<String>)
        ensures
            graph.word_model() == blank_words(size as nat),
            graph.nodes@.len() == size,
            graph.weighted == weighted,
    {
        let mut nodes: Vec<Node<String>> = Vec::new();
        let mut n: usize = 0;
        while n < size
            invariant
                n <= size,
                nodes@.len() == n,
                forall|i: int|
                    0 <= i < n ==> (#[trigger] nodes@[i]).val@ == Seq::<char>::empty()
                        && nodes@[i].children@ == Seq::<Child>::empty(),
            decreases size - n,
        {
            nodes.push(Node::new(String::new()));
            n = n + 1;
        }
        let graph = Graph { nodes, weighted };
        assert(graph.word_model() =~= blank_words(size as nat));
        graph
    }

    /// The graph of words that `text` describes, as `read_words` reads it,
    /// or the reason why it describes none.
    pub fn parse_words(text: &Vec<char>, weighted: bool) -> (r: Result<Graph<String>, ParseError>)
        ensures
            match read_words(text@, weighted) {
                Ok(m) => r matches Ok(graph) && graph.word_model() == m && graph.weighted
                    == weighted,
                Err(x) => r matches Err(y) && y == x,
            },
    {
        let first = find_line_end(text, 0);
        let stop = if first > 0 && text[first - 1] == '\r' {
            first - 1
        } else {
            first
        };
        let size = match next_number(text, 0, stop, usize::MAX as u64) {
            Err(ParseError::MissingField) => {
                return Err(ParseError::NoCount);
            },
            Err(x) => {
                return Err(x);
            },
            Ok((n, behind)) => {
                if find_word(text, behind, stop) < stop {
                    return Err(ParseError::BadNumber);
                }
                n as usize
            },
        };
        let mut graph = Graph::blank_word_graph(size, weighted);
        let mut at: usize = if first < text.len() {
            first + 1
        } else {
            first
        };
        while at < text.len()
            invariant
                at <= text@.len(),
                graph.weighted == weighted,
                graph.nodes@.len() == size,
                read_word_rows(text@, at as int, weighted, graph.word_model()) == read_words(
                    text@,
                    weighted,
                ),
            decreases text@.len() - at,
        {
            let end = find_line_end(text, at);
            let stop = if end > at && text[end - 1] == '\r' {
                end - 1
            } else {
                end
            };
            let ghost before = graph.word_model();
            match next_word_row(text, at, stop, weighted) {
                Err(x) => {
                    return Err(x);
                },
                Ok(row) => {
                    if row.index >= size {
                        return Err(ParseError::NoSuchNode);
                    }
                    let mut links = row.links;
                    let ghost more = links@;
                    let ghost word = row.value@;
                    graph.nodes[row.index].val = row.value;
                    graph.nodes[row.index].children.append(&mut links);
                    assert(graph.word_model() =~= with_word_row(
                        before,
                        row.index as int,
                        word,
                        more,
                    ));
                },
            }
            proof {
                let m = graph.word_model();
                assert(read_word_rows(text@, at as int, weighted, before) == read_word_rows(
                    text@,
                    end + 1,
                    weighted,
                    m,
                ));
                if end >= text@.len() {
                    assert(read_word_rows(text@, end + 1, weighted, m) == Ok::<
                        WordModel,
                        ParseError,
                    >(m));
                    assert(read_word_rows(text@, end as int, weighted, m) == Ok::<
                        WordModel,
                        ParseError,
                    >(m));
                }
            }
            at = if end < text.len() {
                end + 1
            } else {
                end
            };
        }
        Ok(graph)
    }
}

} // verus!

use vstd::prelude::*;
use crate::graph::{Child, Graph, Node};

verus! {

/// Why a text does not describe a graph.
#[derive(Debug, Clone, Copy, PartialEq, Eq, Structural)]
pub enum ParseError {
    /// The first line holds no number of nodes.
    NoCount,
    /// A word that should be a number holds something else than digits, or
    /// the number is too large, or more follows the number of nodes.
    BadNumber,
    /// A line ends before all that it should hold has been read.
    MissingField,
    /// The value of a node is not a single character.
    BadValue,
    /// A line names a node beyond the number of nodes.
    NoSuchNode,
}

/// The position at which the line that holds position `i` ends: that of
/// its line break, or the end of the text.
pub open spec fn line_end(t: Seq<char>, i: int) -> int
    decreases t.len() - i,
{
    if i < 0 || i >= t.len() || t[i] == '\n' {
        i
    } else {
        line_end(t, i + 1)
    }
}

/// The position at which what the line from `a` to `b` holds ends: a
/// carriage return before the line break does not count.
pub open spec fn content_end(t: Seq<char>, a: int, b: int) -> int {
    if a < b <= t.len() && t[b - 1] == '\r' {
        b - 1
    } else {
        b
    }
}

/// The first position from `i` on, before `e`, that holds no space; `e`
/// where there is none.
pub open spec fn skip_spaces(t: Seq<char>, i: int, e: int) -> int
    decreases e - i,
{
    if i < 0 || i >= e || i >= t.len() || t[i] != ' ' {
        i
    } else {
        skip_spaces(t, i + 1, e)
    }
}

/// The first position from `i` on, before `e`, that holds a space; `e`
/// where there is none.
pub open spec fn word_end(t: Seq<char>, i: int, e: int) -> int
    decreases e - i,
{
    if i < 0 || i >= e || i >= t.len() || t[i] == ' ' {
        i
    } else {
        word_end(t, i + 1, e)
    }
}

/// The value of a digit.
pub open spec fn digit_value(c: char) -> Option<nat> {
    if c == '0' {
        Some(0)
    } else if c == '1' {
        Some(1)
    } else if c == '2' {
        Some(2)
    } else if c == '3' {
        Some(3)
    } else if c == '4' {
        Some(4)
    } else if c == '5' {
        Some(5)
    } else if c == '6' {
        Some(6)
    } else if c == '7' {
        Some(7)
    } else if c == '8' {
        Some(8)
    } else if c == '9' {
        Some(9)
    } else {
        None
    }
}

/// The number that the digits from `i` to `j` make of `acc`, each digit
/// taking the number so far times ten; nothing where one of them is no
/// digit or the number goes beyond `limit`.
pub open spec fn number_from(t: Seq<char>, i: int, j: int, acc: nat, limit: nat) -> Option<nat>
    decreases j - i,
{
    if i < 0 || i >= j || i >= t.len() {
        Some(acc)
    } else {
        match digit_value(t[i]) {
            None => None,
            Some(d) => if acc * 10 + d > limit {
                None
            } else {
                number_from(t, i + 1, j, acc * 10 + d, limit)
            },
        }
    }
}

/// The number, no greater than `limit`, that the next word from `i` on is,
/// and the position behind the word.
pub open spec fn read_number(t: Seq<char>, i: int, e: int, limit: nat) -> Result<
    (nat, int),
    ParseError,
> {
    let s = skip_spaces(t, i, e);
    if s >= e {
        Err(ParseError::MissingField)
    } else {
        let w = word_end(t, s, e);
        match number_from(t, s, w, 0, limit) {
            Some(v) => Ok((v, w)),
            None => Err(ParseError::BadNumber),
        }
    }
}

/// The character that the next word from `i` on is, and the position
/// behind the word.
pub open spec fn read_value(t: Seq<char>, i: int, e: int) -> Result<(char, int), ParseError> {
    let s = skip_spaces(t, i, e);
    if s >= e {
        Err(ParseError::MissingField)
    } else if word_end(t, s, e) != s + 1 {
        Err(ParseError::BadValue)
    } else {
        Ok((t[s], s + 1))
    }
}

/// The link that the next word from `i` on is, with the word behind it as
/// its weight in a weighted graph, and the position behind it.
pub open spec fn read_link(t: Seq<char>, i: int, e: int, weighted: bool) -> Result<
    (Child, int),
    ParseError,
> {
    match read_number(t, i, e, usize::MAX as nat) {
        Err(x) => Err(x),
        Ok((idx, p)) => if weighted {
            match read_number(t, p, e, u32::MAX as nat) {
                Err(x) => Err(x),
                Ok((weight, q)) => Ok((Child { idx: idx as usize, weight: weight as u32 }, q)),
            }
        } else {
            Ok((Child { idx: idx as usize, weight: 0 }, p))
        },
    }
}

/// `acc` followed by the next `count` links from `i` on.
pub open spec fn read_links(
    t: Seq<char>,
    i: int,
    e: int,
    count: nat,
    weighted: bool,
    acc: Seq<Child>,
) -> Result<Seq<Child>, ParseError>
    decreases count,
{
    if count == 0 {
        Ok(acc)
    } else {
        match read_link(t, i, e, weighted) {
            Err(x) => Err(x),
            Ok((child, p)) => read_links(t, p, e, (count - 1) as nat, weighted, acc.push(child)),
        }
    }
}

/// What the line from `a` to `e` says of a node: its index, its value, and
/// as many links as the number behind the value says.
pub open spec fn read_row(t: Seq<char>, a: int, e: int, weighted: bool) -> Result<
    (nat, char, Seq<Child>),
    ParseError,
> {
    match read_number(t, a, e, usize::MAX as nat) {
        Err(x) => Err(x),
        Ok((index, p)) => match read_value(t, p, e) {
            Err(x) => Err(x),
            Ok((value, q)) => match read_number(t, q, e, usize::MAX as nat) {
                Err(x) => Err(x),
                Ok((count, r)) => match read_links(t, r, e, count, weighted, Seq::empty()) {
                    Err(x) => Err(x),
                    Ok(links) => Ok((index, value, links)),
                },
            },
        },
    }
}

/// The nodes of a graph as values: for each its value and its links.
pub type Model = Seq<(char, Seq<Child>)>;

/// The nodes `m` after a line has given node `index` the value `value`
/// and the further links `links`.
pub open spec fn with_row(m: Model, index: int, value: char, links: Seq<Child>) -> Model {
    m.update(index, (value, m[index].1 + links))
}

/// The nodes `m` after the lines from position `p` on, each of which
/// speaks of one of the `m.len()` nodes.
pub open spec fn read_rows(t: Seq<char>, p: int, weighted: bool, m: Model) -> Result<
    Model,
    ParseError,
>
    decreases
        (if p < t.len() {
            t.len() - p
        } else {
            0
        }),
{
    if p < 0 || p >= t.len() {
        Ok(m)
    } else {
        let b = line_end(t, p);
        let e = content_end(t, p, b);
        match read_row(t, p, e, weighted) {
            Err(x) => Err(x),
            Ok((index, value, links)) => if index >= m.len() {
                Err(ParseError::NoSuchNode)
            } else {
                proof {
                    lemma_line_end(t, p);
                }
                read_rows(t, b + 1, weighted, with_row(m, index as int, value, links))
            },
        }
    }
}

/// `n` nodes without links, each with the character 0 as its value.
pub open spec fn blank(n: nat) -> Model {
    Seq::new(n, |i: int| ('\0', Seq::<Child>::empty()))
}

/// The nodes that the text `t` describes: its first line holds the number
/// of nodes and nothing else; each further line holds, as words between
/// spaces, the index of a node, its value, the number of its links and the
/// links, in a weighted graph each with its weight behind it. A node of
/// which no line speaks keeps the character 0 and has no links; the links
/// of a node of which several lines speak add up.
pub open spec fn read_text(t: Seq<char>, weighted: bool) -> Result<Model, ParseError> {
    let b = line_end(t, 0);
    let e = content_end(t, 0, b);
    match read_number(t, 0, e, usize::MAX as nat) {
        Err(ParseError::MissingField) => Err(ParseError::NoCount),
        Err(x) => Err(x),
        Ok((n, w)) => if skip_spaces(t, w, e) < e {
            Err(ParseError::BadNumber)
        } else {
            read_rows(t, b + 1, weighted, blank(n))
        },
    }
}

/// The line that starts at `i` ends at or behind `i`, within the text.
pub proof fn lemma_line_end(t: Seq<char>, i: int)
    requires
        0 <= i <= t.len(),
    ensures
        i <= line_end(t, i) <= t.len(),
    decreases t.len() - i,
{
    if i < t.len() && t[i] != '\n' {
        lemma_line_end(t, i + 1);
    }
}

/// The position at which the line that starts at `start` ends.
pub fn find_line_end(text: &Vec<char>, start: usize) -> (end: usize)
    requires
        start <= text@.len(),
    ensures
        end == line_end(text@, start as int),
        start <= end <= text@.len(),
{
    let mut i: usize = start;
    proof {
        lemma_line_end(text@, start as int);
    }
    while i < text.len() && text[i] != '\n'
        invariant
            start <= i <= text@.len(),
            line_end(text@, i as int) == line_end(text@, start as int),
        decreases text@.len() - i,
    {
        i = i + 1;
    }
    i
}

/// The first position from `start` on that holds no space.
pub fn find_word(text: &Vec<char>, start: usize, end: usize) -> (at: usize)
    requires
        start <= end <= text@.len(),
    ensures
        at == skip_spaces(text@, start as int, end as int),
        start <= at <= end,
{
    let mut i: usize = start;
    while i < end && text[i] == ' '
        invariant
            start <= i <= end <= text@.len(),
            skip_spaces(text@, i as int, end as int) == skip_spaces(
                text@,
                start as int,
                end as int,
            ),
        decreases end - i,
    {
        i = i + 1;
    }
    i
}

/// The first position from `start` on that holds a space.
pub fn find_word_end(text: &Vec<char>, start: usize, end: usize) -> (at: usize)
    requires
        start <= end <= text@.len(),
    ensures
        at == word_end(text@, start as int, end as int),
        start <= at <= end,
{
    let mut i: usize = start;
    while i < end && text[i] != ' '
        invariant
            start <= i <= end <= text@.len(),
            word_end(text@, i as int, end as int) == word_end(text@, start as int, end as int),
        decreases end - i,
    {
        i = i + 1;
    }
    i
}

/// The value of the digit `c`.
pub fn digit_of(c: char) -> (d: Option<u64>)
    ensures
        match digit_value(c) {
            Some(v) => d == Some(v as u64) && v <= 9,
            None => d is None,
        },
{
    if c == '0' {
        Some(0)
    } else if c == '1' {
        Some(1)
    } else if c == '2' {
        Some(2)
    } else if c == '3' {
        Some(3)
    } else if c == '4' {
        Some(4)
    } else if c == '5' {
        Some(5)
    } else if c == '6' {
        Some(6)
    } else if c == '7' {
        Some(7)
    } else if c == '8' {
        Some(8)
    } else if c == '9' {
        Some(9)
    } else {
        None
    }
}

/// The number that the digits from `start` to `end` are, where it is no
/// greater than `limit`.
pub fn number_of(text: &Vec<char>, start: usize, end: usize, limit: u64) -> (r: Option<u64>)
    requires
        start <= end <= text@.len(),
    ensures
        match number_from(text@, start as int, end as int, 0, limit as nat) {
            Some(v) => r == Some(v as u64) && v <= limit,
            None => r is None,
        },
{
    let mut acc: u64 = 0;
    let mut i: usize = start;
    while i < end
        invariant
            start <= i <= end <= text@.len(),
            acc <= limit,
            number_from(text@, i as int, end as int, acc as nat, limit as nat) == number_from(
                text@,
                start as int,
                end as int,
                0,
                limit as nat,
            ),
        decreases end - i,
    {
        match digit_of(text[i]) {
            None => {
                return None;
            },
            Some(d) => {
                let next: u128 = (acc as u128) * 10 + (d as u128);
                if next > limit as u128 {
                    return None;
                }
                acc = next as u64;
            },
        }
        i = i + 1;
    }
    Some(acc)
}

/// The number that the next word from `start` on is, and the position
/// behind the word.
pub fn next_number(text: &Vec<char>, start: usize, end: usize, limit: u64) -> (r: Result<
    (u64, usize),
    ParseError,
>)
    requires
        start <= end <= text@.len(),
    ensures
        match read_number(text@, start as int, end as int, limit as nat) {
            Ok((v, p)) => r == Ok::<(u64, usize), ParseError>((v as u64, p as usize)) && v <= limit
                && start <= p <= end,
            Err(x) => r == Err::<(u64, usize), ParseError>(x),
        },
{
    let at = find_word(text, start, end);
    if at >= end {
        return Err(ParseError::MissingField);
    }
    let stop = find_word_end(text, at, end);
    match number_of(text, at, stop, limit) {
        Some(v) => Ok((v, stop)),
        None => Err(ParseError::BadNumber),
    }
}

/// The character that the next word from `start` on is, and the position
/// behind the word.
pub fn next_value(text: &Vec<char>, start: usize, end: usize) -> (r: Result<(char, usize), ParseError>)
    requires
        start <= end <= text@.len(),
    ensures
        match read_value(text@, start as int, end as int) {
            Ok((v, p)) => r == Ok::<(char, usize), ParseError>((v, p as usize)) && start <= p
                <= end,
            Err(x) => r == Err::<(char, usize), ParseError>(x),
        },
{
    let at = find_word(text, start, end);
    if at >= end {
        return Err(ParseError::MissingField);
    }
    let stop = find_word_end(text, at, end);
    if stop != at + 1 {
        return Err(ParseError::BadValue);
    }
    Ok((text[at], stop))
}

/// The link that the next word from `start` on is, with its weight in a
/// weighted graph, and the position behind it.
pub fn next_link(text: &Vec<char>, start: usize, end: usize, weighted: bool) -> (r: Result<
    (Child, usize),
    ParseError,
>)
    requires
        start <= end <= text@.len(),
    ensures
        match read_link(text@, start as int, end as int, weighted) {
            Ok((c, p)) => r == Ok::<(Child, usize), ParseError>((c, p as usize)) && start <= p
                <= end,
            Err(x) => r == Err::<(Child, usize), ParseError>(x),
        },
{
    match next_number(text, start, end, usize::MAX as u64) {
        Err(x) => Err(x),
        Ok((idx, p)) => {
            if weighted {
                match next_number(text, p, end, u32::MAX as u64) {
                    Err(x) => Err(x),
                    Ok((weight, q)) => Ok(
                        (Child::new_with_weight(idx as usize, weight as u32), q),
                    ),
                }
            } else {
                Ok((Child::new(idx as usize), p))
            }
        },
    }
}

/// What a line says of a node.
pub struct Row {
    pub index: usize,
    pub value: char,
    pub links: Vec<Child>,
}

/// The next `count` links from `start` on.
pub fn next_links(text: &Vec<char>, start: usize, end: usize, count: u64, weighted: bool) -> (r:
    Result<Vec<Child>, ParseError>)
    requires
        start <= end <= text@.len(),
    ensures
        match read_links(text@, start as int, end as int, count as nat, weighted, Seq::empty()) {
            Ok(links) => r matches Ok(v) && v@ == links,
            Err(x) => r matches Err(y) && y == x,
        },
{
    let mut links: Vec<Child> = Vec::new();
    let mut at: usize = start;
    let mut left: u64 = count;
    while left > 0
        invariant
            start <= at <= end <= text@.len(),
            read_links(text@, at as int, end as int, left as nat, weighted, links@) == read_links(
                text@,
                start as int,
                end as int,
                count as nat,
                weighted,
                Seq::empty(),
            ),
        decreases left,
    {
        match next_link(text, at, end, weighted) {
            Err(x) => {
                return Err(x);
            },
            Ok((child, p)) => {
                links.push(child);
                at = p;
                left = left - 1;
            },
        }
    }
    Ok(links)
}

/// What the line from `start` to `end` says of a node.
pub fn next_row(text: &Vec<char>, start: usize, end: usize, weighted: bool) -> (r: Result<
    Row,
    ParseError,
>)
    requires
        start <= end <= text@.len(),
    ensures
        match read_row(text@, start as int, end as int, weighted) {
            Ok((index, value, links)) => r matches Ok(row) && row.index == index && row.value
                == value && row.links@ == links,
            Err(x) => r matches Err(y) && y == x,
        },
{
    match next_number(text, start, end, usize::MAX as u64) {
        Err(x) => Err(x),
        Ok((index, p)) => match next_value(text, p, end) {
            Err(x) => Err(x),
            Ok((value, q)) => match next_number(text, q, end, usize::MAX as u64) {
                Err(x) => Err(x),
                Ok((count, r)) => match next_links(text, r, end, count, weighted) {
                    Err(x) => Err(x),
                    Ok(links) => Ok(Row { index: index as usize, value, links }),
                },
            },
        },
    }
}

impl Graph<char> {
    /// The nodes as values: for each its value and its links.
    pub open spec fn model(&self) -> Model {
        Seq::new(self.nodes@.len(), |i: int| (self.nodes@[i].val, self.nodes@[i].children@))
    }

    /// A graph of `size` nodes without links, each with the character 0.
    pub fn blank_graph(size: usize, weighted: bool) -> (graph: Graph<char>)
        ensures
            graph.model() == blank(size as nat),
            graph.weighted == weighted,
    {
        let mut nodes: Vec<Node<char>> = Vec::new();
        let mut n: usize = 0;
        while n < size
            invariant
                n <= size,
                nodes@.len() == n,
                forall|i: int|
                    0 <= i < n ==> (#[trigger] nodes@[i]).val == '\0' && nodes@[i].children@
                        == Seq::<Child>::empty(),
            decreases size - n,
        {
            nodes.push(Node::new('\0'));
            n = n + 1;
        }
        let graph = Graph { nodes, weighted };
        assert(graph.model() =~= blank(size as nat));
        graph
    }

    /// The graph that `text` describes, as `read_text` reads it, or the
    /// reason why it describes none.
    pub fn parse(text: &Vec<char>, weighted: bool) -> (r: Result<Graph<char>, ParseError>)
        ensures
            match read_text(text@, weighted) {
                Ok(m) => r matches Ok(graph) && graph.model() == m && graph.weighted == weighted,
                Err(x) => r matches Err(y) && y == x,
            },
    {
        let first = find_line_end(text, 0);
        let stop = if first > 0 && text[first - 1] == '\r' {
            first - 1
        } else {
            first
        };
        let size = match next_number(text, 0, stop, usize::MAX as u64) {
            Err(ParseError::MissingField) => {
                return Err(ParseError::NoCount);
            },
            Err(x) => {
                return Err(x);
            },
            Ok((n, behind)) => {
                if find_word(text, behind, stop) < stop {
                    return Err(ParseError::BadNumber);
                }
                n as usize
            },
        };
        let mut graph = Graph::blank_graph(size, weighted);
        let mut at: usize = if first < text.len() {
            first + 1
        } else {
            first
        };
        while at < text.len()
            invariant
                at <= text@.len(),
                graph.weighted == weighted,
                graph.nodes@.len() == size,
                read_rows(text@, at as int, weighted, graph.model()) == read_text(text@, weighted),
            decreases text@.len() - at,
        {
            let end = find_line_end(text, at);
            let stop = if end > at && text[end - 1] == '\r' {
                end - 1
            } else {
                end
            };
            let ghost before = graph.model();
            match next_row(text, at, stop, weighted) {
                Err(x) => {
                    return Err(x);
                },
                Ok(row) => {
                    if row.index >= size {
                        return Err(ParseError::NoSuchNode);
                    }
                    let mut links = row.links;
                    let ghost more = links@;
                    graph.nodes[row.index].val = row.value;
                    graph.nodes[row.index].children.append(&mut links);
                    assert(graph.model() =~= with_row(before, row.index as int, row.value, more));
                },
            }
            proof {
                let m = graph.model();
                assert(read_rows(text@, at as int, weighted, before) == read_rows(
                    text@,
                    end + 1,
                    weighted,
                    m,
                ));
                if end >= text@.len() {
                    assert(read_rows(text@, end + 1, weighted, m) == Ok::<Model, ParseError>(m));
                    assert(read_rows(text@, end as int, weighted, m) == Ok::<Model, ParseError>(m));
                }
            }
            at = if end < text.len() {
                end + 1
            } else {
                end
            };
        }
        Ok(graph)
    }
}

impl<T> Graph<T> {
    /// Whether every link leads to a node of the graph.
    pub fn is_valid(&self) -> (b: bool)
        ensures
            b == self.valid(),
    {
        let n = self.nodes.len();
        let mut i: usize = 0;
        while i < n
            invariant
                i <= n,
                n == self.nodes@.len(),
                forall|r: int, k: int|
                    0 <= r < i && 0 <= k < self.nodes@[r].children@.len() ==> (
                    #[trigger] self.nodes@[r].children@[k]).idx < n,
            decreases n - i,
        {
            let links = self.nodes[i].children.len();
            let mut k: usize = 0;
            while k < links
                invariant
                    k <= links,
                    i < n,
                    n == self.nodes@.len(),
                    links == self.nodes@[i as int].children@.len(),
                    forall|q: int|
                        0 <= q < k ==> (#[trigger] self.nodes@[i as int].children@[q]).idx < n,
                decreases links - k,
            {
                if self.nodes[i].children[k].idx >= n {
                    return false;
                }
                k = k + 1;
            }
            i = i + 1;
        }
        true
    }
}

} // verus!

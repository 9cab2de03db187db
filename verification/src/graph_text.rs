use vstd::prelude::*;
use crate::decimal::{decimal, digit};
use crate::graph::{Child, Graph};

verus! {

/// `n` spaces.
pub open spec fn spaces(n: nat) -> Seq<char> {
    Seq::new(n, |i: int| ' ')
}

/// `text` with spaces behind it up to `width`; a longer text as it is.
pub open spec fn set_left(text: Seq<char>, width: nat) -> Seq<char> {
    if text.len() >= width {
        text
    } else {
        text + spaces((width - text.len()) as nat)
    }
}

/// `text` with spaces before it up to `width`; a longer text as it is.
pub open spec fn set_right(text: Seq<char>, width: nat) -> Seq<char> {
    if text.len() >= width {
        text
    } else {
        spaces((width - text.len()) as nat) + text
    }
}

/// The length of the longest of the first `k` of `texts`.
pub open spec fn widest(texts: Seq<Seq<char>>, k: int) -> nat
    decreases k,
{
    if k <= 0 {
        0
    } else {
        let before = widest(texts, k - 1);
        if texts[k - 1].len() > before {
            texts[k - 1].len()
        } else {
            before
        }
    }
}

/// The widths of the columns of a table of a graph.
pub struct Widths {
    pub index: usize,
    pub value: usize,
    pub count: usize,
    pub link: usize,
}

/// A link as text: the index, followed in a weighted graph by a space and
/// the weight.
pub open spec fn link_text(child: Child, weighted: bool) -> Seq<char> {
    if weighted {
        decimal(child.idx as nat) + seq![' '] + decimal(child.weight as nat)
    } else {
        decimal(child.idx as nat)
    }
}

impl<T> Graph<T> {
    /// For each node the number of its links as text.
    pub open spec fn count_texts(&self) -> Seq<Seq<char>> {
        Seq::new(self.nodes@.len(), |i: int| decimal(self.nodes@[i].children@.len()))
    }

    /// For each link of node `i` its weight as text.
    pub open spec fn weight_texts(&self, i: int) -> Seq<Seq<char>> {
        Seq::new(
            self.nodes@[i].children@.len(),
            |k: int| decimal(self.nodes@[i].children@[k].weight as nat),
        )
    }

    /// The length of the longest weight, as text, among the links of the
    /// first `k` nodes.
    pub open spec fn widest_weight(&self, k: int) -> nat
        decreases k,
    {
        if k <= 0 {
            0
        } else {
            let before = self.widest_weight(k - 1);
            let here = widest(self.weight_texts(k - 1), self.nodes@[k - 1].children@.len() as int);
            if here > before {
                here
            } else {
                before
            }
        }
    }

    /// The widths of the columns: the index as wide as the number of nodes,
    /// the value one wider than the longest label, the count as wide as the
    /// longest number of links, and a link as wide as an index, with room
    /// for a space, the longest weight and two more in a weighted graph.
    pub open spec fn widths(&self, labels: Seq<Seq<char>>) -> (nat, nat, nat, nat) {
        let index = decimal(self.nodes@.len()).len();
        let value = widest(labels, labels.len() as int) + 1;
        let count = widest(self.count_texts(), self.nodes@.len() as int);
        let link = if self.weighted {
            index + self.widest_weight(self.nodes@.len() as int) + 3
        } else {
            index
        };
        (index, value, count, link)
    }

    /// The first `k` links of node `i`, each at the left of its column and
    /// followed by a space.
    pub open spec fn links_text(&self, i: int, k: int, link: nat) -> Seq<char>
        decreases k,
    {
        if k <= 0 {
            Seq::empty()
        } else {
            self.links_text(i, k - 1, link) + set_left(
                link_text(self.nodes@[i].children@[k - 1], self.weighted),
                link,
            ) + seq![' ']
        }
    }

    /// The row of node `i`: its index at the right of its column, a space,
    /// its label, at the right where `right` and else at the left, a space,
    /// the number of its links at the right, four spaces, its links, and a
    /// line break.
    pub open spec fn row_text(&self, i: int, label: Seq<char>, right: bool, w: (nat, nat, nat, nat)) -> Seq<
        char,
    > {
        set_right(decimal(i as nat), w.0) + seq![' '] + (if right {
            set_right(label, w.1)
        } else {
            set_left(label, w.1)
        }) + seq![' '] + set_right(decimal(self.nodes@[i].children@.len()), w.2) + spaces(4)
            + self.links_text(i, self.nodes@[i].children@.len() as int, w.3) + seq!['\n']
    }

    /// The rows of the first `k` nodes.
    pub open spec fn rows_text(
        &self,
        labels: Seq<Seq<char>>,
        right: bool,
        k: int,
        w: (nat, nat, nat, nat),
    ) -> Seq<char>
        decreases k,
    {
        if k <= 0 {
            Seq::empty()
        } else {
            self.rows_text(labels, right, k - 1, w) + self.row_text(k - 1, labels[k - 1], right, w)
        }
    }

    /// The graph as a table: the number of nodes, a line with the headings
    /// `n`, `v`, `nc` and `c`, then one row for each node.
    pub open spec fn table_text(&self, labels: Seq<Seq<char>>, right: bool) -> Seq<char> {
        let w = self.widths(labels);
        decimal(self.nodes@.len()) + seq!['\n'] + set_left(seq!['n'], w.0) + spaces(2) + set_left(
            seq!['v'],
            w.1,
        ) + set_left(seq!['n', 'c'], w.2) + spaces(3) + set_left(seq!['c'], w.3) + seq!['\n']
            + self.rows_text(labels, right, self.nodes@.len() as int, w)
    }
}

/// The digits of `n` in base ten.
pub fn digits_of(n: u64) -> (text: Vec<char>)
    ensures
        text@ == decimal(n as nat),
        0 < text@.len() <= 20,
    decreases n,
{
    let low = n % 10;
    let c = if low == 0 {
        '0'
    } else if low == 1 {
        '1'
    } else if low == 2 {
        '2'
    } else if low == 3 {
        '3'
    } else if low == 4 {
        '4'
    } else if low == 5 {
        '5'
    } else if low == 6 {
        '6'
    } else if low == 7 {
        '7'
    } else if low == 8 {
        '8'
    } else {
        '9'
    };
    proof {
        lemma_decimal_len(n as nat);
    }
    if n < 10 {
        let mut text: Vec<char> = Vec::new();
        text.push(c);
        assert(text@ =~= decimal(n as nat));
        text
    } else {
        let mut text = digits_of(n / 10);
        text.push(c);
        text
    }
}

/// The largest number with `k` digits, and more for more digits.
pub open spec fn digits_hold(k: nat) -> nat
    decreases k,
{
    if k == 0 {
        0
    } else {
        10 * digits_hold((k - 1) as nat) + 9
    }
}

/// A number is written with at least one digit, and with no more digits
/// than it needs.
pub proof fn lemma_decimal_digits(n: nat, k: nat)
    requires
        n <= digits_hold(k),
        k >= 1,
    ensures
        0 < decimal(n).len() <= k,
    decreases n,
{
    if n >= 10 {
        assert(k >= 2) by {
            reveal_with_fuel(digits_hold, 2);
        }
        lemma_decimal_digits(n / 10, (k - 1) as nat);
    }
}

/// A number of 64 bits is written with at most 20 digits.
pub proof fn lemma_decimal_len(n: nat)
    requires
        n <= u64::MAX,
    ensures
        0 < decimal(n).len() <= 20,
{
    reveal_with_fuel(digits_hold, 21);
    lemma_decimal_digits(n, 20);
}

/// Appends `text` to `out`.
pub fn push_all(out: &mut Vec<char>, text: &Vec<char>)
    ensures
        final(out)@ == old(out)@ + text@,
{
    let mut n: usize = 0;
    assert(out@ =~= old(out)@ + text@.subrange(0, 0));
    while n < text.len()
        invariant
            n <= text.len(),
            out@ == old(out)@ + text@.subrange(0, n as int),
        decreases text.len() - n,
    {
        out.push(text[n]);
        n = n + 1;
        assert(out@ =~= old(out)@ + text@.subrange(0, n as int));
    }
    assert(text@.subrange(0, text@.len() as int) =~= text@);
}

/// Appends `n` spaces to `out`.
pub fn push_spaces(out: &mut Vec<char>, n: usize)
    ensures
        final(out)@ == old(out)@ + spaces(n as nat),
{
    let mut k: usize = 0;
    assert(out@ =~= old(out)@ + spaces(0));
    while k < n
        invariant
            k <= n,
            out@ == old(out)@ + spaces(k as nat),
        decreases n - k,
    {
        out.push(' ');
        k = k + 1;
        assert(out@ =~= old(out)@ + spaces(k as nat));
    }
}

/// Appends `text` to `out`, with spaces behind it up to `width`.
pub fn push_left(out: &mut Vec<char>, text: &Vec<char>, width: usize)
    ensures
        final(out)@ == old(out)@ + set_left(text@, width as nat),
{
    push_all(out, text);
    if text.len() < width {
        push_spaces(out, width - text.len());
        assert(out@ =~= old(out)@ + set_left(text@, width as nat));
    }
}

/// Appends `text` to `out`, with spaces before it up to `width`.
pub fn push_right(out: &mut Vec<char>, text: &Vec<char>, width: usize)
    ensures
        final(out)@ == old(out)@ + set_right(text@, width as nat),
{
    if text.len() < width {
        push_spaces(out, width - text.len());
    }
    push_all(out, text);
    assert(out@ =~= old(out)@ + set_right(text@, width as nat));
}

/// The length of the longest of `texts`.
pub fn widest_of(texts: &Vec<Vec<char>>) -> (r: usize)
    ensures
        r == widest(texts.deep_view(), texts@.len() as int),
        r == 0 || exists|i: int| 0 <= i < texts@.len() && r == texts@[i]@.len(),
{
    let mut r: usize = 0;
    let mut k: usize = 0;
    while k < texts.len()
        invariant
            k <= texts.len(),
            r == widest(texts.deep_view(), k as int),
            r == 0 || exists|i: int| 0 <= i < texts@.len() && r == texts@[i]@.len(),
        decreases texts.len() - k,
    {
        assert(texts.deep_view()[k as int] == texts@[k as int]@);
        if texts[k].len() > r {
            r = texts[k].len();
        }
        k = k + 1;
    }
    r
}

/// A link as text.
pub fn link_chars(child: &Child, weighted: bool) -> (text: Vec<char>)
    ensures
        text@ == link_text(*child, weighted),
        text@.len() <= 41,
{
    let mut text = digits_of(child.idx as u64);
    if weighted {
        text.push(' ');
        let weight = digits_of(child.weight as u64);
        push_all(&mut text, &weight);
    }
    text
}

impl<T> Graph<T> {
    /// The widths of the columns of the table of the graph with the labels
    /// `labels`.
    pub fn column_widths(&self, labels: &Vec<Vec<char>>) -> (w: Widths)
        requires
            forall|i: int| 0 <= i < labels@.len() ==> (#[trigger] labels@[i])@.len() < usize::MAX,
        ensures
            (w.index as nat, w.value as nat, w.count as nat, w.link as nat) == self.widths(
                labels.deep_view(),
            ),
    {
        let n = self.nodes.len();
        let index = digits_of(n as u64).len();
        let value = widest_of(labels) + 1;
        let mut count: usize = 0;
        let mut weight: usize = 0;
        let mut i: usize = 0;
        while i < n
            invariant
                i <= n,
                n == self.nodes@.len(),
                count <= 20,
                weight <= 20,
                count == widest(self.count_texts(), i as int),
                weight == self.widest_weight(i as int),
            decreases n - i,
        {
            let links = self.nodes[i].children.len();
            let here = digits_of(links as u64).len();
            if here > count {
                count = here;
            }
            let mut most: usize = 0;
            let mut k: usize = 0;
            while k < links
                invariant
                    k <= links,
                    i < n,
                    n == self.nodes@.len(),
                    links == self.nodes@[i as int].children@.len(),
                    most <= 20,
                    most == widest(self.weight_texts(i as int), k as int),
                decreases links - k,
            {
                let len = digits_of(self.nodes[i].children[k].weight as u64).len();
                if len > most {
                    most = len;
                }
                k = k + 1;
            }
            if most > weight {
                weight = most;
            }
            i = i + 1;
        }
        let link = if self.weighted {
            index + weight + 3
        } else {
            index
        };
        Widths { index, value, count, link }
    }

    /// The graph as a table, as `table_text` lays it out. `labels` holds
    /// the value of each node as text; `right` sets the values to the right
    /// of their column, as numbers are set, instead of the left.
    pub fn render(&self, labels: &Vec<Vec<char>>, right: bool) -> (text: Vec<char>)
        requires
            labels@.len() == self.nodes@.len(),
            forall|i: int| 0 <= i < labels@.len() ==> (#[trigger] labels@[i])@.len() < usize::MAX,
        ensures
            text@ == self.table_text(labels.deep_view(), right),
    {
        let n = self.nodes.len();
        let w = self.column_widths(labels);
        let ghost widths = self.widths(labels.deep_view());
        let mut out = digits_of(n as u64);
        out.push('\n');
        let mut head: Vec<char> = Vec::new();
        head.push('n');
        push_left(&mut out, &head, w.index);
        push_spaces(&mut out, 2);
        head.set(0, 'v');
        push_left(&mut out, &head, w.value);
        head.set(0, 'n');
        head.push('c');
        push_left(&mut out, &head, w.count);
        push_spaces(&mut out, 3);
        let mut last: Vec<char> = Vec::new();
        last.push('c');
        push_left(&mut out, &last, w.link);
        out.push('\n');
        let ghost top = out@;
        proof {
            assert(head@ =~= seq!['n', 'c']);
            assert(last@ =~= seq!['c']);
            assert(top =~= decimal(n as nat) + seq!['\n'] + set_left(seq!['n'], widths.0) + spaces(2)
                + set_left(seq!['v'], widths.1) + set_left(seq!['n', 'c'], widths.2) + spaces(3)
                + set_left(seq!['c'], widths.3) + seq!['\n']);
            assert(top + self.rows_text(labels.deep_view(), right, 0, widths) =~= top);
        }
        let mut i: usize = 0;
        while i < n
            invariant
                i <= n,
                n == self.nodes@.len(),
                labels@.len() == n,
                widths == self.widths(labels.deep_view()),
                (w.index as nat, w.value as nat, w.count as nat, w.link as nat) == widths,
                out@ == top + self.rows_text(labels.deep_view(), right, i as int, widths),
            decreases n - i,
        {
            proof {
                assert(labels.deep_view()[i as int] == labels@[i as int]@);
            }
            self.push_row(&mut out, i, &labels[i], right, &w);
            i = i + 1;
            assert(out@ =~= top + self.rows_text(labels.deep_view(), right, i as int, widths));
        }
        out
    }

    /// Appends the links of node `i` to `out`.
    pub fn push_links(&self, out: &mut Vec<char>, i: usize, link: usize)
        requires
            i < self.nodes@.len(),
        ensures
            final(out)@ == old(out)@ + self.links_text(
                i as int,
                self.nodes@[i as int].children@.len() as int,
                link as nat,
            ),
    {
        let links = self.nodes[i].children.len();
        let mut k: usize = 0;
        proof {
            assert(old(out)@ + self.links_text(i as int, 0, link as nat) =~= old(out)@);
        }
        while k < links
            invariant
                k <= links,
                i < self.nodes@.len(),
                links == self.nodes@[i as int].children@.len(),
                out@ == old(out)@ + self.links_text(i as int, k as int, link as nat),
            decreases links - k,
        {
            let text = link_chars(&self.nodes[i].children[k], self.weighted);
            push_left(out, &text, link);
            out.push(' ');
            k = k + 1;
            assert(out@ =~= old(out)@ + self.links_text(i as int, k as int, link as nat));
        }
    }

    /// Appends the row of node `i`, whose value as text is `label`, to `out`.
    pub fn push_row(&self, out: &mut Vec<char>, i: usize, label: &Vec<char>, right: bool, w: &Widths)
        requires
            i < self.nodes@.len(),
        ensures
            final(out)@ == old(out)@ + self.row_text(
                i as int,
                label@,
                right,
                (w.index as nat, w.value as nat, w.count as nat, w.link as nat),
            ),
    {
        let links = self.nodes[i].children.len();
        let ghost start = out@;
        let ghost index = set_right(decimal(i as nat), w.index as nat);
        let ghost value = if right {
            set_right(label@, w.value as nat)
        } else {
            set_left(label@, w.value as nat)
        };
        let ghost count = set_right(decimal(links as nat), w.count as nat);
        let ghost all = self.links_text(i as int, links as int, w.link as nat);
        push_right(out, &digits_of(i as u64), w.index);
        out.push(' ');
        assert(out@ =~= start + (index + seq![' ']));
        if right {
            push_right(out, label, w.value);
        } else {
            push_left(out, label, w.value);
        }
        assert(out@ =~= start + (index + seq![' '] + value));
        out.push(' ');
        assert(out@ =~= start + (index + seq![' '] + value + seq![' ']));
        push_right(out, &digits_of(links as u64), w.count);
        assert(out@ =~= start + (index + seq![' '] + value + seq![' '] + count));
        push_spaces(out, 4);
        assert(out@ =~= start + (index + seq![' '] + value + seq![' '] + count + spaces(4)));
        self.push_links(out, i, w.link);
        assert(out@ =~= start + (index + seq![' '] + value + seq![' '] + count + spaces(4) + all));
        out.push('\n');
        assert(out@ =~= start + (index + seq![' '] + value + seq![' '] + count + spaces(4) + all
            + seq!['\n']));
    }
}

} // verus!

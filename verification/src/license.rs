//! A tree of nodes written as one list of numbers: each node is a header of
//! two numbers, how many children and how many metadata entries it has, then
//! its children, then its metadata.

use vstd::prelude::*;

verus! {

/// A node of the tree as a mathematical value.
pub struct Tree {
    pub header: (usize, usize),
    pub metadata: Seq<usize>,
    pub children: Seq<Tree>,
}

/// A node of the tree.
#[derive(Debug)]
pub struct Node {
    pub header: (usize, usize),
    pub metadata: Vec<usize>,
    pub children: Vec<Node>,
}

impl Node {
    /// The tree below this node.
    pub open spec fn view(&self) -> Tree
        decreases self,
    {
        Tree {
            header: self.header,
            metadata: self.metadata@,
            children: Seq::new(
                self.children@.len(),
                |i: int|
                    if 0 <= i < self.children@.len() {
                        self.children@[i].view()
                    } else {
                        arbitrary()
                    },
            ),
        }
    }
}

/// The sum of the entries.
pub open spec fn sum(entries: Seq<usize>) -> nat
    decreases entries.len(),
{
    if entries.len() == 0 {
        0
    } else {
        (sum(entries.drop_last()) + entries.last()) as nat
    }
}

impl Tree {
    /// The header says how many children and metadata entries there are, in
    /// this node and in every node below.
    pub open spec fn wf(self) -> bool
        decreases self,
    {
        &&& self.header.0 == self.children.len()
        &&& self.header.1 == self.metadata.len()
        &&& forall|i: int| 0 <= i < self.children.len() ==> (#[trigger] self.children[i]).wf()
    }

    /// The list of numbers that the tree is written as.
    pub open spec fn encoding(self) -> Seq<usize>
        decreases self, self.children.len() + 1,
    {
        seq![self.header.0, self.header.1] + self.encoding_of_children(self.children.len())
            + self.metadata
    }

    /// What the first `n` children are written as.
    pub open spec fn encoding_of_children(self, n: nat) -> Seq<usize>
        decreases self, n,
    {
        if n == 0 || n > self.children.len() {
            Seq::empty()
        } else {
            self.encoding_of_children((n - 1) as nat) + self.children[n - 1].encoding()
        }
    }

    /// The sum of all metadata entries in the tree.
    pub open spec fn total(self) -> nat
        decreases self, self.children.len() + 1,
    {
        sum(self.metadata) + self.total_of_children(self.children.len())
    }

    /// The sum of all metadata entries below the first `n` children.
    pub open spec fn total_of_children(self, n: nat) -> nat
        decreases self, n,
    {
        if n == 0 || n > self.children.len() {
            0
        } else {
            self.total_of_children((n - 1) as nat) + self.children[n - 1].total()
        }
    }

    /// The value of the node: the sum of its metadata where it has no child;
    /// else each metadata entry counts as the value of the child that it
    /// names, the first child being 1, and as nothing where it names none.
    pub open spec fn value(self) -> nat
        decreases self, self.metadata.len() + 1,
    {
        if self.children.len() == 0 {
            sum(self.metadata)
        } else {
            self.value_of_entries(self.metadata.len())
        }
    }

    /// What the first `n` metadata entries count as, in a node with children.
    pub open spec fn value_of_entries(self, n: nat) -> nat
        decreases self, n,
    {
        if n == 0 || n > self.metadata.len() {
            0
        } else {
            let entry = self.metadata[n - 1];
            self.value_of_entries((n - 1) as nat) + if 0 < entry <= self.children.len() {
                self.children[entry - 1].value()
            } else {
                0
            }
        }
    }

    /// The length of the list that the tree is written as, going by the
    /// headers: two, the number of metadata entries that the header gives,
    /// and the length of each child.
    pub open spec fn span(self) -> nat
        decreases self, self.children.len() + 1,
    {
        (2 + self.header.1 + self.span_of_children(self.children.len())) as nat
    }

    /// The length of the first `n` children.
    pub open spec fn span_of_children(self, n: nat) -> nat
        decreases self, n,
    {
        if n == 0 || n > self.children.len() {
            0
        } else {
            self.span_of_children((n - 1) as nat) + self.children[n - 1].span()
        }
    }
}

/// The node that is written in `list` from position `pos` on, and where it
/// ends; nothing where the list breaks off before the node is complete.
pub open spec fn parse_node(list: Seq<usize>, pos: int) -> Option<(Tree, int)>
    decreases list.len() - pos, 0nat,
{
    if pos < 0 || pos + 2 > list.len() {
        None
    } else {
        match parse_children(list, pos + 2, list[pos] as nat) {
            None => None,
            Some((children, at)) => if at + list[pos + 1] > list.len() {
                None
            } else {
                Some(
                    (
                        Tree {
                            header: (list[pos], list[pos + 1]),
                            metadata: list.subrange(at, at + list[pos + 1]),
                            children,
                        },
                        at + list[pos + 1],
                    ),
                )
            },
        }
    }
}

/// The `n` nodes that are written in `list` one after the other from
/// position `pos` on, and where the last one ends.
pub open spec fn parse_children(list: Seq<usize>, pos: int, n: nat) -> Option<(Seq<Tree>, int)>
    decreases list.len() - pos, n,
{
    if n == 0 {
        Some((Seq::empty(), pos))
    } else {
        match parse_node(list, pos) {
            None => None,
            Some((first, next)) => if next <= pos || next > list.len() {
                None
            } else {
                match parse_children(list, next, (n - 1) as nat) {
                    None => None,
                    Some((rest, end)) => Some((seq![first] + rest, end)),
                }
            },
        }
    }
}

/// A node that was read ends at least two numbers behind its start, and
/// within the list.
pub proof fn lemma_parse_node_bounds(list: Seq<usize>, pos: int)
    ensures
        parse_node(list, pos) matches Some((_, end)) ==> 0 <= pos && pos + 2 <= end <= list.len(),
    decreases list.len() - pos, 0nat,
{
    if 0 <= pos && pos + 2 <= list.len() {
        lemma_parse_children_bounds(list, pos + 2, list[pos] as nat);
    }
}

/// Nodes that were read end no earlier than they start, within the list.
pub proof fn lemma_parse_children_bounds(list: Seq<usize>, pos: int, n: nat)
    requires
        0 <= pos <= list.len(),
    ensures
        parse_children(list, pos, n) matches Some((nodes, end)) ==> pos <= end <= list.len()
            && nodes.len() == n,
    decreases list.len() - pos, n,
{
    if n > 0 {
        lemma_parse_node_bounds(list, pos);
        match parse_node(list, pos) {
            None => {},
            Some((first, next)) => {
                lemma_parse_children_bounds(list, next, (n - 1) as nat);
            },
        }
    }
}

/// Reads the node that starts at `pos`.
fn parse_at(list: &[usize], pos: usize) -> (found: Option<(Node, usize)>)
    requires
        pos <= list@.len(),
    ensures
        match found {
            Some((node, end)) => parse_node(list@, pos as int) == Some((node@, end as int)),
            None => parse_node(list@, pos as int) is None,
        },
    decreases list@.len() - pos,
{
    if list.len() - pos < 2 {
        return None;
    }
    let num_of_children = list[pos];
    let num_of_metadata = list[pos + 1];
    let mut children: Vec<Node> = Vec::new();
    let mut at: usize = pos + 2;
    let mut i: usize = 0;
    let ghost whole = parse_children(list@, pos + 2, num_of_children as nat);
    let ghost mut done: Seq<Tree> = Seq::empty();
    while i < num_of_children
        invariant
            i <= num_of_children,
            pos + 2 <= at <= list@.len(),
            num_of_children == list@[pos as int],
            children@.len() == i,
            done.len() == i,
            forall|j: int| 0 <= j < i ==> (#[trigger] children@[j])@ == done[j],
            whole == parse_children(list@, pos + 2, num_of_children as nat),
            whole == match parse_children(list@, at as int, (num_of_children - i) as nat) {
                None => None::<(Seq<Tree>, int)>,
                Some((rest, end)) => Some((done + rest, end)),
            },
        decreases num_of_children - i,
    {
        proof {
            lemma_parse_node_bounds(list@, at as int);
        }
        match parse_at(list, at) {
            None => {
                assert(parse_children(list@, at as int, (num_of_children - i) as nat) is None);
                return None;
            },
            Some((child, next)) => {
                proof {
                    let ghost rest_after = parse_children(
                        list@,
                        next as int,
                        (num_of_children - i - 1) as nat,
                    );
                    match rest_after {
                        None => {},
                        Some((rest, end)) => {
                            assert(done + (seq![child@] + rest) =~= done.push(child@) + rest);
                        },
                    }
                    done = done.push(child@);
                }
                children.push(child);
                at = next;
                i += 1;
            },
        }
    }
    assert(whole == Some((done, at as int))) by {
        assert(done + Seq::<Tree>::empty() =~= done);
    }
    if list.len() - at < num_of_metadata {
        return None;
    }
    let mut metadata: Vec<usize> = Vec::new();
    let mut j: usize = 0;
    while j < num_of_metadata
        invariant
            j <= num_of_metadata,
            at + num_of_metadata <= list@.len() <= usize::MAX,
            metadata@ == list@.subrange(at as int, at + j),
        decreases num_of_metadata - j,
    {
        metadata.push(list[at + j]);
        proof {
            assert(metadata@ =~= list@.subrange(at as int, at + j + 1));
        }
        j += 1;
    }
    let node = Node { header: (num_of_children, num_of_metadata), metadata, children };
    proof {
        assert(node@.children =~= done);
    }
    Some((node, at + num_of_metadata))
}

/// Reads the node that the list starts with; what follows it is ignored.
/// Nothing is returned where the list breaks off before the node is
/// complete.
pub fn get_node_from_list(list: &[usize]) -> (found: Option<Node>)
    ensures
        match found {
            Some(node) => parse_node(list@, 0) matches Some((tree, _)) && tree == node@,
            None => parse_node(list@, 0) is None,
        },
        found matches Some(node) ==> node@.wf(),
{
    proof {
        lemma_parsed_node(list@, 0);
    }
    match parse_at(list, 0) {
        None => None,
        Some((node, _)) => Some(node),
    }
}

/// The sum of a shorter list of entries is no larger.
pub proof fn lemma_sum_of_prefix(entries: Seq<usize>, n: int)
    requires
        0 <= n <= entries.len(),
    ensures
        sum(entries.take(n)) <= sum(entries),
    decreases entries.len(),
{
    if n < entries.len() {
        assert(entries.drop_last().take(n) =~= entries.take(n));
        lemma_sum_of_prefix(entries.drop_last(), n);
    } else {
        assert(entries.take(n) =~= entries);
    }
}

impl Tree {
    /// The sums over the children grow with the number of children counted.
    pub proof fn lemma_children_grow(self, n: nat, m: nat)
        requires
            n <= m <= self.children.len(),
        ensures
            self.total_of_children(n) <= self.total_of_children(m),
            self.span_of_children(n) <= self.span_of_children(m),
        decreases m,
    {
        if n < m {
            self.lemma_children_grow(n, (m - 1) as nat);
        }
    }

    /// The value of the entries grows with the number of entries counted.
    pub proof fn lemma_entries_grow(self, n: nat, m: nat)
        requires
            n <= m <= self.metadata.len(),
        ensures
            self.value_of_entries(n) <= self.value_of_entries(m),
        decreases m,
    {
        if n < m {
            self.lemma_entries_grow(n, (m - 1) as nat);
        }
    }
}

/// The sum of the entries, where it fits the machine's numbers.
fn sum_of(entries: &Vec<usize>) -> (total: Option<usize>)
    ensures
        total == if sum(entries@) <= usize::MAX {
            Some(sum(entries@) as usize)
        } else {
            None
        },
{
    let mut count: usize = 0;
    let mut i: usize = 0;
    while i < entries.len()
        invariant
            i <= entries.len(),
            count == sum(entries@.take(i as int)),
        decreases entries.len() - i,
    {
        proof {
            assert(entries@.take(i + 1).drop_last() =~= entries@.take(i as int));
            lemma_sum_of_prefix(entries@, i + 1);
        }
        if entries[i] > usize::MAX - count {
            return None;
        }
        count = count + entries[i];
        i += 1;
    }
    proof {
        assert(entries@.take(i as int) =~= entries@);
    }
    Some(count)
}

/// The sum of all metadata entries in the tree, where it fits the machine's
/// numbers.
pub fn calc_metadata(node: &Node) -> (total: Option<usize>)
    ensures
        total == if node@.total() <= usize::MAX {
            Some(node@.total() as usize)
        } else {
            None
        },
    decreases node,
{
    let ghost tree = node@;
    let mut count: usize = match sum_of(&node.metadata) {
        None => {
            return None;
        },
        Some(own) => own,
    };
    let mut i: usize = 0;
    while i < node.children.len()
        invariant
            i <= node.children.len(),
            tree == node@,
            count == sum(tree.metadata) + tree.total_of_children(i as nat),
        decreases node.children.len() - i,
    {
        proof {
            assert(tree.children[i as int] == node.children@[i as int]@);
            tree.lemma_children_grow((i + 1) as nat, tree.children.len());
        }
        match calc_metadata(&node.children[i]) {
            None => {
                return None;
            },
            Some(below) => {
                if below > usize::MAX - count {
                    return None;
                }
                count = count + below;
            },
        }
        i += 1;
    }
    Some(count)
}

/// The value of the node, where it fits the machine's numbers: the sum of
/// its metadata where it has no child; else each metadata entry counts as
/// the value of the child that it names, the first child being 1.
pub fn calc_metadata_v2(node: &Node) -> (value: Option<usize>)
    ensures
        value == if node@.value() <= usize::MAX {
            Some(node@.value() as usize)
        } else {
            None
        },
    decreases node,
{
    let ghost tree = node@;
    if node.children.len() == 0 {
        return sum_of(&node.metadata);
    }
    let mut count: usize = 0;
    let mut i: usize = 0;
    while i < node.metadata.len()
        invariant
            i <= node.metadata.len(),
            tree == node@,
            node.children@.len() > 0,
            count == tree.value_of_entries(i as nat),
        decreases node.metadata.len() - i,
    {
        proof {
            tree.lemma_entries_grow((i + 1) as nat, tree.metadata.len());
        }
        let entry = node.metadata[i];
        if entry <= node.children.len() && entry > 0 {
            proof {
                assert(tree.children[entry - 1] == node.children@[entry - 1]@);
            }
            match calc_metadata_v2(&node.children[entry - 1]) {
                None => {
                    return None;
                },
                Some(below) => {
                    if below > usize::MAX - count {
                        return None;
                    }
                    count = count + below;
                },
            }
        }
        i += 1;
    }
    Some(count)
}

/// The length of the list that the node was read from, going by the headers,
/// where it fits the machine's numbers.
pub fn calc_offset_from_node(node: &Node) -> (offset: Option<usize>)
    ensures
        offset == if node@.span() <= usize::MAX {
            Some(node@.span() as usize)
        } else {
            None
        },
    decreases node,
{
    let ghost tree = node@;
    if node.header.1 > usize::MAX - 2 {
        return None;
    }
    let mut offset: usize = 2 + node.header.1;
    let mut i: usize = 0;
    while i < node.children.len()
        invariant
            i <= node.children.len(),
            tree == node@,
            offset == 2 + tree.header.1 + tree.span_of_children(i as nat),
        decreases node.children.len() - i,
    {
        proof {
            assert(tree.children[i as int] == node.children@[i as int]@);
            tree.lemma_children_grow((i + 1) as nat, tree.children.len());
        }
        match calc_offset_from_node(&node.children[i]) {
            None => {
                return None;
            },
            Some(below) => {
                if below > usize::MAX - offset {
                    return None;
                }
                offset = offset + below;
            },
        }
        i += 1;
    }
    Some(offset)
}

/// The pieces of a line between its blanks; two blanks in a row have an
/// empty piece between them.
pub open spec fn pieces(line: Seq<char>) -> Seq<Seq<char>>
    decreases line.len(),
{
    if line.len() == 0 {
        seq![Seq::<char>::empty()]
    } else if line.last() == ' ' {
        pieces(line.drop_last()).push(Seq::empty())
    } else {
        let before = pieces(line.drop_last());
        before.drop_last().push(before.last().push(line.last()))
    }
}

/// The numbers that the pieces are written as; nothing where a piece is no
/// number that fits the machine's numbers.
pub open spec fn numbers_of(texts: Seq<Seq<char>>) -> Option<Seq<usize>>
    decreases texts.len(),
{
    if texts.len() == 0 {
        Some(Seq::empty())
    } else {
        match (
            numbers_of(texts.drop_last()),
            crate::scan::bounded_unsigned(texts.last(), usize::MAX as nat),
        ) {
            (Some(before), Some(number)) => Some(before.push(number as usize)),
            _ => None,
        }
    }
}

/// Once a piece is no number, more pieces do not mend that.
pub proof fn lemma_numbers_fail(texts: Seq<Seq<char>>, n: int)
    requires
        0 <= n <= texts.len(),
        numbers_of(texts.take(n)) is None,
    ensures
        numbers_of(texts) is None,
    decreases texts.len(),
{
    if n < texts.len() {
        assert(texts.drop_last().take(n) =~= texts.take(n));
        lemma_numbers_fail(texts.drop_last(), n);
    } else {
        assert(texts.take(n) =~= texts);
    }
}

/// The texts of the pieces.
pub open spec fn views(parts: Seq<Vec<char>>) -> Seq<Seq<char>> {
    parts.map_values(|part: Vec<char>| part@)
}

fn split_at_blanks(line: &str) -> (parts: Vec<Vec<char>>)
    ensures
        views(parts@) == pieces(line@),
{
    let chars = crate::scan::chars_of(line);
    let mut parts: Vec<Vec<char>> = Vec::new();
    let mut current: Vec<char> = Vec::new();
    let mut i: usize = 0;
    proof {
        assert(views(parts@).push(current@) =~= pieces(chars@.take(0)));
    }
    while i < chars.len()
        invariant
            i <= chars@.len(),
            views(parts@).push(current@) == pieces(chars@.take(i as int)),
        decreases chars@.len() - i,
    {
        proof {
            assert(chars@.take(i + 1).drop_last() =~= chars@.take(i as int));
        }
        let ghost before = views(parts@);
        let ghost piece = current@;
        if chars[i] == ' ' {
            parts.push(current);
            current = Vec::new();
            proof {
                assert(views(parts@) =~= before.push(piece));
            }
        } else {
            current.push(chars[i]);
            proof {
                assert(before.push(piece).drop_last() =~= before);
            }
        }
        i += 1;
    }
    let ghost before = views(parts@);
    proof {
        assert(chars@.take(i as int) =~= chars@);
    }
    parts.push(current);
    proof {
        assert(views(parts@) =~= before.push(current@));
    }
    parts
}

/// Reads the numbers of a line, which stand with one blank between them.
pub fn numbers_from_line(line: &str) -> (numbers: Option<Vec<usize>>)
    ensures
        match numbers {
            Some(list) => numbers_of(pieces(line@)) == Some(list@),
            None => numbers_of(pieces(line@)) is None,
        },
{
    let parts = split_at_blanks(line);
    let ghost texts = views(parts@);
    let mut numbers: Vec<usize> = Vec::new();
    let mut i: usize = 0;
    while i < parts.len()
        invariant
            i <= parts@.len(),
            texts == views(parts@),
            texts == pieces(line@),
            numbers_of(texts.take(i as int)) == Some(numbers@),
        decreases parts@.len() - i,
    {
        proof {
            assert(texts.take(i + 1).drop_last() =~= texts.take(i as int));
            assert(texts.take(i + 1).last() == parts@[i as int]@);
            assert(parts@[i as int]@.skip(0) =~= parts@[i as int]@);
        }
        match crate::scan::unsigned_from_chars(&parts[i], 0, usize::MAX as u64) {
            None => {
                proof {
                    lemma_numbers_fail(texts, i + 1);
                }
                return None;
            },
            Some(number) => {
                numbers.push(number as usize);
            },
        }
        i += 1;
    }
    proof {
        assert(texts.take(i as int) =~= texts);
    }
    Some(numbers)
}

/// The length of the trees, one after the other, going by their headers.
pub open spec fn total_span(trees: Seq<Tree>) -> nat
    decreases trees.len(),
{
    if trees.len() == 0 {
        0
    } else {
        total_span(trees.drop_last()) + trees.last().span()
    }
}

/// One more tree in front adds its length.
pub proof fn lemma_total_span_in_front(first: Tree, rest: Seq<Tree>)
    ensures
        total_span(seq![first] + rest) == first.span() + total_span(rest),
    decreases rest.len(),
{
    let all = seq![first] + rest;
    if rest.len() == 0 {
        assert(all.drop_last() =~= Seq::<Tree>::empty());
        assert(all.last() == first);
        assert(total_span(all.drop_last()) == 0);
        assert(total_span(rest) == 0);
    } else {
        assert(all.drop_last() =~= seq![first] + rest.drop_last());
        assert(all.last() == rest.last());
        lemma_total_span_in_front(first, rest.drop_last());
    }
}

impl Tree {
    /// The length of the first `n` children is the length of those trees.
    pub proof fn lemma_span_of_children(self, n: nat)
        requires
            n <= self.children.len(),
        ensures
            self.span_of_children(n) == total_span(self.children.take(n as int)),
        decreases n,
    {
        if n > 0 {
            self.lemma_span_of_children((n - 1) as nat);
            assert(self.children.take(n as int).drop_last() =~= self.children.take(n - 1));
            assert(self.children.take(n as int).last() == self.children[n - 1]);
        }
    }
}

/// A node that was read has as many children and metadata entries as its
/// header says, in itself and in every node below, and its length by the
/// headers is the length of the part of the list that it was read from.
pub proof fn lemma_parsed_node(list: Seq<usize>, pos: int)
    ensures
        parse_node(list, pos) matches Some((tree, end)) ==> tree.wf() && pos + tree.span() == end,
    decreases list.len() - pos, 0nat,
{
    if 0 <= pos && pos + 2 <= list.len() {
        lemma_parsed_children(list, pos + 2, list[pos] as nat);
        match parse_node(list, pos) {
            None => {},
            Some((tree, end)) => {
                tree.lemma_span_of_children(tree.children.len());
                assert(tree.children.take(tree.children.len() as int) =~= tree.children);
            },
        }
    }
}

/// The nodes that were read one after the other are as many as asked for,
/// each as its headers say, and their length by the headers is the length
/// of the part of the list that they were read from.
pub proof fn lemma_parsed_children(list: Seq<usize>, pos: int, n: nat)
    ensures
        parse_children(list, pos, n) matches Some((trees, end)) ==> trees.len() == n && pos
            + total_span(trees) == end && forall|i: int|
            0 <= i < trees.len() ==> (#[trigger] trees[i]).wf(),
    decreases list.len() - pos, n,
{
    if n > 0 {
        lemma_parsed_node(list, pos);
        match parse_node(list, pos) {
            None => {},
            Some((first, next)) => {
                if pos < next <= list.len() {
                    lemma_parsed_children(list, next, (n - 1) as nat);
                    match parse_children(list, next, (n - 1) as nat) {
                        None => {},
                        Some((rest, end)) => {
                            lemma_total_span_in_front(first, rest);
                            let trees = seq![first] + rest;
                            assert forall|i: int| 0 <= i < trees.len() implies (
                            #[trigger] trees[i]).wf() by {
                                if i > 0 {
                                    assert(trees[i] == rest[i - 1]);
                                }
                            }
                        },
                    }
                }
            },
        }
    }
}

impl Tree {
    /// What the first children are written as grows child by child, and a
    /// tree is written as two numbers at least.
    pub proof fn lemma_encoding_lengths(self, n: nat)
        requires
            n <= self.children.len(),
        ensures
            self.encoding().len() == 2 + self.encoding_of_children(self.children.len()).len()
                + self.metadata.len(),
            n < self.children.len() ==> self.encoding_of_children((n + 1) as nat)
                == self.encoding_of_children(n) + self.children[n as int].encoding(),
            self.encoding_of_children(n).len() <= self.encoding_of_children(
                self.children.len(),
            ).len(),
        decreases self.children.len() - n,
    {
        if n < self.children.len() {
            self.lemma_encoding_lengths((n + 1) as nat);
        }
    }
}

/// A list reads back as the tree that it was written from: where the
/// numbers that a tree is written as stand in a list from `pos` on,
/// `parse_node` finds that tree there, and its end.
pub proof fn lemma_reads_back(tree: Tree, list: Seq<usize>, pos: int)
    requires
        tree.wf(),
        0 <= pos,
        pos + tree.encoding().len() <= list.len(),
        list.subrange(pos, pos + tree.encoding().len()) == tree.encoding(),
    ensures
        parse_node(list, pos) == Some((tree, pos + tree.encoding().len())),
    decreases tree, 1nat, 0nat,
{
    let n = tree.children.len();
    let written = tree.encoding();
    let below = tree.encoding_of_children(n);
    tree.lemma_encoding_lengths(0);
    assert(written[0] == tree.header.0 && written[1] == tree.header.1);
    assert(list[pos] == written[0]);
    assert(list[pos + 1] == written[1]);
    assert(tree.encoding_of_children(0) =~= Seq::<usize>::empty());
    lemma_children_read_back(tree, 0, list, pos);
    assert(tree.children.skip(0) =~= tree.children);
    let at = pos + 2 + below.len();
    assert(list.subrange(at, at + tree.metadata.len()) =~= tree.metadata) by {
        assert forall|i: int| 0 <= i < tree.metadata.len() implies list.subrange(
            at,
            at + tree.metadata.len(),
        )[i] == tree.metadata[i] by {
            assert(written[2 + below.len() + i] == tree.metadata[i]);
            assert(list.subrange(pos, pos + written.len())[2 + below.len() + i] == list[at + i]);
        }
    }
}

/// The children from the `k`-th on read back from where they were written.
pub proof fn lemma_children_read_back(tree: Tree, k: nat, list: Seq<usize>, pos: int)
    requires
        tree.wf(),
        k <= tree.children.len(),
        0 <= pos,
        pos + tree.encoding().len() <= list.len(),
        list.subrange(pos, pos + tree.encoding().len()) == tree.encoding(),
    ensures
        parse_children(
            list,
            pos + 2 + tree.encoding_of_children(k).len(),
            (tree.children.len() - k) as nat,
        ) == Some(
            (
                tree.children.skip(k as int),
                pos + 2 + tree.encoding_of_children(tree.children.len()).len(),
            ),
        ),
    decreases tree, 0nat, tree.children.len() - k,
{
    let n = tree.children.len();
    let written = tree.encoding();
    let start = pos + 2 + tree.encoding_of_children(k).len();
    tree.lemma_encoding_lengths(k);
    if k == n {
        assert(tree.children.skip(k as int) =~= Seq::<Tree>::empty());
    } else {
        let child = tree.children[k as int];
        let next = start + child.encoding().len();
        tree.lemma_encoding_lengths((k + 1) as nat);
        child.lemma_encoding_lengths(0);
        assert(list.subrange(start, next) =~= child.encoding()) by {
            assert forall|i: int| 0 <= i < child.encoding().len() implies list.subrange(start, next)[i]
                == child.encoding()[i] by {
                let offset = 2 + tree.encoding_of_children(k).len() + i;
                assert(tree.encoding_of_children((k + 1) as nat)[tree.encoding_of_children(k).len()
                    + i] == child.encoding()[i]);
                lemma_child_in_encoding(tree, (k + 1) as nat, tree.encoding_of_children(k).len() + i);
                assert(written[offset] == child.encoding()[i]);
                assert(list.subrange(pos, pos + written.len())[offset] == list[pos + offset]);
            }
        }
        lemma_reads_back(child, list, start);
        lemma_children_read_back(tree, (k + 1) as nat, list, pos);
        assert(seq![child] + tree.children.skip(k as int + 1) =~= tree.children.skip(k as int));
    }
}

/// What the first `k` children are written as stands at the start of what
/// all children are written as.
pub proof fn lemma_child_in_encoding(tree: Tree, k: nat, i: int)
    requires
        k <= tree.children.len(),
        0 <= i < tree.encoding_of_children(k).len(),
    ensures
        i < tree.encoding_of_children(tree.children.len()).len(),
        tree.encoding_of_children(tree.children.len())[i] == tree.encoding_of_children(k)[i],
        tree.encoding()[2 + i] == tree.encoding_of_children(k)[i],
    decreases tree.children.len() - k,
{
    tree.lemma_encoding_lengths(k);
    if k < tree.children.len() {
        lemma_child_in_encoding(tree, (k + 1) as nat, i);
    }
}

} // verus!

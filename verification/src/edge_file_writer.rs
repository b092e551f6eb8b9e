//! The settings of a writer of edge lists, and the lines that it writes.

use vstd::prelude::*;
use crate::errors::GraphError;
use crate::graph::Graph;
use crate::types::{EdgeT, NodeT};

verus! {

/// The settings of a writer of separated values: where it writes, whether it
/// reports its progress, what separates the values and whether a header
/// comes first.
pub struct CSVFileWriter {
    pub path: String,
    pub verbose: bool,
    pub separator: String,
    pub header: bool,
}

impl CSVFileWriter {
    /// A writer to `path` that reports its progress, separates values with a
    /// tab and writes a header.
    pub fn new(path: String) -> (w: CSVFileWriter)
        ensures
            w.path == path,
            w.verbose,
            w.separator@ == "\t"@,
            w.header,
    {
        CSVFileWriter { path, verbose: true, separator: "\t".to_string(), header: true }
    }
}

/// The settings of a writer of edge lists: the writer of separated values
/// underneath, and for the sources, the destinations, the edge types and the
/// weights the name and the place of their column.
pub struct EdgeFileWriter {
    pub writer: CSVFileWriter,
    pub sources_column: String,
    pub sources_column_number: usize,
    pub destinations_column: String,
    pub destinations_column_number: usize,
    pub edge_types_column: String,
    pub edge_types_column_number: usize,
    pub weights_column: String,
    pub weights_column_number: usize,
    pub numeric_node_ids: bool,
    pub directed: Option<bool>,
}

impl EdgeFileWriter {
    /// A writer of edge lists to `path`, with the columns `subject`,
    /// `object`, `label` and `weight` in the places 0 to 3, nodes written by
    /// name, and the direction left to the graph.
    pub fn new(path: String) -> (w: EdgeFileWriter)
        ensures
            w.writer.path == path,
            w.writer.verbose,
            w.writer.separator@ == "\t"@,
            w.writer.header,
            w.sources_column@ == "subject"@,
            w.sources_column_number == 0,
            w.destinations_column@ == "object"@,
            w.destinations_column_number == 1,
            w.edge_types_column@ == "label"@,
            w.edge_types_column_number == 2,
            w.weights_column@ == "weight"@,
            w.weights_column_number == 3,
            !w.numeric_node_ids,
            w.directed is None,
    {
        EdgeFileWriter {
            writer: CSVFileWriter::new(path),
            sources_column: "subject".to_string(),
            sources_column_number: 0,
            destinations_column: "object".to_string(),
            destinations_column_number: 1,
            edge_types_column: "label".to_string(),
            edge_types_column_number: 2,
            weights_column: "weight".to_string(),
            weights_column_number: 3,
            numeric_node_ids: false,
            directed: None,
        }
    }

    /// Sets the name of the column of the sources, where one is given.
    pub fn set_sources_column(self, sources_column: Option<String>) -> (w: EdgeFileWriter)
        ensures
            w == (match sources_column {
                Some(column) => EdgeFileWriter { sources_column: column, ..self },
                None => self,
            }),
    {
        let mut w = self;
        if let Some(column) = sources_column {
            w.sources_column = column;
        }
        w
    }

    /// Sets the place of the column of the sources, where one is given.
    pub fn set_sources_column_number(self, sources_column_number: Option<usize>) -> (w:
        EdgeFileWriter)
        ensures
            w == (match sources_column_number {
                Some(number) => EdgeFileWriter { sources_column_number: number, ..self },
                None => self,
            }),
    {
        let mut w = self;
        if let Some(number) = sources_column_number {
            w.sources_column_number = number;
        }
        w
    }

    /// Sets the name of the column of the destinations, where one is given.
    pub fn set_destinations_column(self, destinations_column: Option<String>) -> (w:
        EdgeFileWriter)
        ensures
            w == (match destinations_column {
                Some(column) => EdgeFileWriter { destinations_column: column, ..self },
                None => self,
            }),
    {
        let mut w = self;
        if let Some(column) = destinations_column {
            w.destinations_column = column;
        }
        w
    }

    /// Sets the place of the column of the destinations, where one is given.
    pub fn set_destinations_column_number(self, destinations_column_number: Option<usize>) -> (w:
        EdgeFileWriter)
        ensures
            w == (match destinations_column_number {
                Some(number) => EdgeFileWriter { destinations_column_number: number, ..self },
                None => self,
            }),
    {
        let mut w = self;
        if let Some(number) = destinations_column_number {
            w.destinations_column_number = number;
        }
        w
    }

    /// Sets the name of the column of the edge types, where one is given.
    pub fn set_edge_types_column(self, edge_type_column: Option<String>) -> (w: EdgeFileWriter)
        ensures
            w == (match edge_type_column {
                Some(column) => EdgeFileWriter { edge_types_column: column, ..self },
                None => self,
            }),
    {
        let mut w = self;
        if let Some(column) = edge_type_column {
            w.edge_types_column = column;
        }
        w
    }

    /// Sets the place of the column of the edge types, where one is given.
    pub fn set_edge_types_column_number(self, edge_type_column_number: Option<usize>) -> (w:
        EdgeFileWriter)
        ensures
            w == (match edge_type_column_number {
                Some(number) => EdgeFileWriter { edge_types_column_number: number, ..self },
                None => self,
            }),
    {
        let mut w = self;
        if let Some(number) = edge_type_column_number {
            w.edge_types_column_number = number;
        }
        w
    }

    /// Sets the name of the column of the weights, where one is given.
    pub fn set_weights_column(self, weights_column: Option<String>) -> (w: EdgeFileWriter)
        ensures
            w == (match weights_column {
                Some(column) => EdgeFileWriter { weights_column: column, ..self },
                None => self,
            }),
    {
        let mut w = self;
        if let Some(column) = weights_column {
            w.weights_column = column;
        }
        w
    }

    /// Sets the place of the column of the weights, where one is given.
    pub fn set_weights_column_number(self, weights_column_number: Option<usize>) -> (w:
        EdgeFileWriter)
        ensures
            w == (match weights_column_number {
                Some(number) => EdgeFileWriter { weights_column_number: number, ..self },
                None => self,
            }),
    {
        let mut w = self;
        if let Some(number) = weights_column_number {
            w.weights_column_number = number;
        }
        w
    }

    /// Sets whether the writer reports its progress, where that is given.
    pub fn set_verbose(self, verbose: Option<bool>) -> (w: EdgeFileWriter)
        ensures
            w == (match verbose {
                Some(v) => EdgeFileWriter {
                    writer: CSVFileWriter { verbose: v, ..self.writer },
                    ..self
                },
                None => self,
            }),
    {
        let mut w = self;
        if let Some(v) = verbose {
            w.writer.verbose = v;
        }
        w
    }

    /// Sets whether nodes are written by number, where that is given.
    pub fn set_numeric_node_ids(self, numeric_node_ids: Option<bool>) -> (w: EdgeFileWriter)
        ensures
            w == (match numeric_node_ids {
                Some(numeric) => EdgeFileWriter { numeric_node_ids: numeric, ..self },
                None => self,
            }),
    {
        let mut w = self;
        if let Some(numeric) = numeric_node_ids {
            w.numeric_node_ids = numeric;
        }
        w
    }

    /// Sets what separates the values of a line, where that is given.
    pub fn set_separator(self, separator: Option<String>) -> (w: EdgeFileWriter)
        ensures
            w == (match separator {
                Some(v) => EdgeFileWriter {
                    writer: CSVFileWriter { separator: v, ..self.writer },
                    ..self
                },
                None => self,
            }),
    {
        let mut w = self;
        if let Some(v) = separator {
            w.writer.separator = v;
        }
        w
    }

    /// Sets whether a header comes first, where that is given.
    pub fn set_header(self, header: Option<bool>) -> (w: EdgeFileWriter)
        ensures
            w == (match header {
                Some(v) => EdgeFileWriter {
                    writer: CSVFileWriter { header: v, ..self.writer },
                    ..self
                },
                None => self,
            }),
    {
        let mut w = self;
        if let Some(v) = header {
            w.writer.header = v;
        }
        w
    }

    /// Sets whether the graph is written as a directed one; `None` leaves
    /// that to the graph.
    pub fn set_directed(self, directed: Option<bool>) -> (w: EdgeFileWriter)
        ensures
            w == (EdgeFileWriter { directed, ..self }),
    {
        let mut w = self;
        w.directed = directed;
        w
    }
}

} // verus!

verus! {

/// What a list of values with their places says.
pub open spec fn pairs_view(pairs: Seq<(String, usize)>) -> Seq<(Seq<char>, usize)> {
    Seq::new(pairs.len(), |i: int| (pairs[i].0@, pairs[i].1))
}

/// What a line of values says.
pub open spec fn line_view(line: Seq<String>) -> Seq<Seq<char>> {
    Seq::new(line.len(), |i: int| line[i]@)
}

/// What a list of lines says.
pub open spec fn lines_view(lines: Seq<Vec<String>>) -> Seq<Seq<Seq<char>>> {
    Seq::new(lines.len(), |i: int| line_view(lines[i]@))
}

/// The line of `number_of_columns` values that holds every value of `pairs`
/// at its place and nothing elsewhere; of two values for one place the later
/// stays.
pub open spec fn composed(number_of_columns: nat, pairs: Seq<(Seq<char>, usize)>) -> Seq<Seq<char>>
    decreases pairs.len(),
{
    if pairs.len() == 0 {
        Seq::new(number_of_columns, |i: int| Seq::<char>::empty())
    } else {
        composed(number_of_columns, pairs.drop_last()).update(
            pairs.last().1 as int,
            pairs.last().0,
        )
    }
}

/// Whether every place of `pairs` lies within `number_of_columns` columns.
pub open spec fn places_fit(number_of_columns: nat, pairs: Seq<(Seq<char>, usize)>) -> bool {
    forall|i: int| 0 <= i < pairs.len() ==> (#[trigger] pairs[i]).1 < number_of_columns
}

/// Puts every value of `pairs` at its place in a line of
/// `number_of_columns` values.
pub fn compose_lines(number_of_columns: usize, pairs: Vec<(String, usize)>) -> (line: Vec<String>)
    requires
        places_fit(number_of_columns as nat, pairs_view(pairs@)),
    ensures
        line_view(line@) == composed(number_of_columns as nat, pairs_view(pairs@)),
{
    let mut line: Vec<String> = Vec::new();
    let mut c: usize = 0;
    while c < number_of_columns
        invariant
            c <= number_of_columns,
            line@.len() == c,
            forall|k: int| 0 <= k < c ==> (#[trigger] line@[k])@ == Seq::<char>::empty(),
        decreases number_of_columns - c,
    {
        line.push(String::new());
        c += 1;
    }
    let ghost all = pairs_view(pairs@);
    proof {
        assert(all.take(0) =~= Seq::<(Seq<char>, usize)>::empty());
        assert(line_view(line@) =~= composed(number_of_columns as nat, all.take(0)));
    }
    let mut i: usize = 0;
    while i < pairs.len()
        invariant
            i <= pairs@.len(),
            all == pairs_view(pairs@),
            places_fit(number_of_columns as nat, all),
            line@.len() == number_of_columns,
            line_view(line@) == composed(number_of_columns as nat, all.take(i as int)),
        decreases pairs@.len() - i,
    {
        let ghost before = line_view(line@);
        let place = pairs[i].1;
        proof {
            assert(all[i as int].1 < number_of_columns);
            assert(all.take(i + 1).drop_last() =~= all.take(i as int));
        }
        line.set(place, pairs[i].0.clone());
        proof {
            assert(line_view(line@) =~= before.update(place as int, all[i as int].0));
        }
        i += 1;
    }
    proof {
        assert(all.take(i as int) =~= all);
    }
    line
}

} // verus!

verus! {

/// The larger of two places.
pub open spec fn later(a: int, b: int) -> int {
    if a < b {
        b
    } else {
        a
    }
}

impl EdgeFileWriter {
    /// Whether the graph is written as a directed one.
    pub open spec fn writes_directed(&self, g: &Graph) -> bool {
        match self.directed {
            Some(directed) => directed,
            None => g.directed,
        }
    }

    /// Whether edge `e` is written: every edge of a graph that is written as
    /// directed, and of the two directions of an edge otherwise the one from
    /// the smaller node to the larger.
    pub open spec fn writes(&self, g: &Graph, e: int) -> bool {
        self.writes_directed(g) || g.source(e) <= g.destination(e)
    }

    /// The last place that a line for `g` uses.
    pub open spec fn last_place(&self, g: &Graph) -> int {
        let ends = later(
            self.sources_column_number as int,
            self.destinations_column_number as int,
        );
        let typed = if g.edge_types is Some {
            later(ends, self.edge_types_column_number as int)
        } else {
            ends
        };
        if g.weights is Some {
            later(typed, self.weights_column_number as int)
        } else {
            typed
        }
    }

    /// The names of the columns that the graph has, with their places.
    pub open spec fn header_pairs(&self, g: &Graph) -> Seq<(Seq<char>, usize)> {
        let ends = seq![
            (self.sources_column@, self.sources_column_number),
            (self.destinations_column@, self.destinations_column_number),
        ];
        let typed = if g.edge_types is Some {
            ends.push((self.edge_types_column@, self.edge_types_column_number))
        } else {
            ends
        };
        if g.weights is Some {
            typed.push((self.weights_column@, self.weights_column_number))
        } else {
            typed
        }
    }

    /// How node `u` is written: by its number, or by its name.
    pub open spec fn node_text(&self, g: &Graph, u: int) -> Seq<char> {
        if self.numeric_node_ids {
            crate::text::decimal_digits(u as nat)
        } else {
            g.nodes.reverse_map@[u]@
        }
    }

    /// The values of the line of edge `e`, with their places; the weight of
    /// the edge is written as `weight_text` says.
    pub open spec fn line_pairs(&self, g: &Graph, e: int, weight_text: Seq<char>) -> Seq<
        (Seq<char>, usize),
    > {
        let ends = seq![
            (self.node_text(g, g.source(e)), self.sources_column_number),
            (self.node_text(g, g.destination(e)), self.destinations_column_number),
        ];
        let typed = match g.edge_types {
            Some(t) => ends.push(
                (t.vocabulary.reverse_map@[t.ids@[e] as int]@, self.edge_types_column_number),
            ),
            None => ends,
        };
        if g.weights is Some {
            typed.push((weight_text, self.weights_column_number))
        } else {
            typed
        }
    }

    /// The lines of the first `k` edges, those of them that are written.
    pub open spec fn lines_upto(&self, g: &Graph, weights_text: Seq<Seq<char>>, k: int) -> Seq<
        Seq<Seq<char>>,
    >
        decreases k,
    {
        if k <= 0 {
            Seq::empty()
        } else if self.writes(g, k - 1) {
            self.lines_upto(g, weights_text, k - 1).push(
                composed(
                    (self.last_place(g) + 1) as nat,
                    self.line_pairs(g, k - 1, weights_text[k - 1]),
                ),
            )
        } else {
            self.lines_upto(g, weights_text, k - 1)
        }
    }

    /// Everything that is written for `g`: the header, where the writer has
    /// one, and the lines of the edges.
    pub open spec fn dumped(&self, g: &Graph, weights_text: Seq<Seq<char>>) -> Seq<Seq<Seq<char>>> {
        let lines = self.lines_upto(g, weights_text, g.edges_count() as int);
        if self.writer.header {
            seq![composed((self.last_place(g) + 1) as nat, self.header_pairs(g))] + lines
        } else {
            lines
        }
    }

    /// What keeps `g` from being written: a place beyond which no column
    /// can be counted, and texts for the weights that are not as many as the
    /// edges.
    pub open spec fn dump_failure(&self, g: &Graph, weights_text: Seq<Seq<char>>) -> bool {
        self.last_place(g) >= usize::MAX || (g.weights is Some && weights_text.len()
            != g.edges_count())
    }

    /// How node `u` is written.
    fn write_node(&self, g: &Graph, u: NodeT) -> (text: String)
        requires
            g.wf(),
            u < g.nodes_count(),
        ensures
            text@ == self.node_text(g, u as int),
    {
        if self.numeric_node_ids {
            crate::text::decimal_string(u)
        } else {
            g.nodes.translate(u).to_string()
        }
    }

    /// The lines of an edge list of `graph`, each a list of values, one for
    /// every column: the header first, where the writer has one, and then
    /// one line for every edge that is written. `weights_text` says how the
    /// weight of every edge is written; it is read where the graph has
    /// weights.
    pub fn dump(&self, graph: &Graph, weights_text: &Vec<String>) -> (r: Result<
        Vec<Vec<String>>,
        GraphError,
    >)
        requires
            graph.wf(),
        ensures
            r is Err <==> self.dump_failure(graph, line_view(weights_text@)),
            r is Err ==> r->Err_0 == GraphError::InvalidParameter,
            r matches Ok(lines) ==> lines_view(lines@) == self.dumped(
                graph,
                line_view(weights_text@),
            ),
    {
        let directed = match self.directed {
            Some(directed) => directed,
            None => graph.is_directed(),
        };
        let has_types = graph.has_edge_types();
        let has_weights = graph.has_weights();
        let mut last = if self.sources_column_number < self.destinations_column_number {
            self.destinations_column_number
        } else {
            self.sources_column_number
        };
        if has_types && last < self.edge_types_column_number {
            last = self.edge_types_column_number;
        }
        if has_weights && last < self.weights_column_number {
            last = self.weights_column_number;
        }
        let edges_number = graph.edges.len();
        if last == usize::MAX || (has_weights && weights_text.len() != edges_number) {
            return Err(GraphError::InvalidParameter);
        }
        let number_of_columns = last + 1;
        let ghost texts = line_view(weights_text@);
        let mut lines: Vec<Vec<String>> = Vec::new();
        if self.writer.header {
            let mut header: Vec<(String, usize)> = Vec::new();
            header.push((self.sources_column.clone(), self.sources_column_number));
            header.push((self.destinations_column.clone(), self.destinations_column_number));
            if has_types {
                header.push((self.edge_types_column.clone(), self.edge_types_column_number));
            }
            if has_weights {
                header.push((self.weights_column.clone(), self.weights_column_number));
            }
            proof {
                assert(pairs_view(header@) =~= self.header_pairs(graph));
            }
            lines.push(compose_lines(number_of_columns, header));
        }
        let ghost head = lines_view(lines@);
        proof {
            assert(head =~= (if self.writer.header {
                seq![composed(number_of_columns as nat, self.header_pairs(graph))]
            } else {
                Seq::empty()
            }));
        }
        let mut e: usize = 0;
        while e < edges_number
            invariant
                graph.wf(),
                e <= edges_number,
                edges_number == graph.edges_count(),
                number_of_columns == self.last_place(graph) + 1,
                directed == self.writes_directed(graph),
                has_types == (graph.edge_types is Some),
                has_weights == (graph.weights is Some),
                has_weights ==> weights_text@.len() == edges_number,
                texts == line_view(weights_text@),
                lines_view(lines@) == head + self.lines_upto(graph, texts, e as int),
            decreases edges_number - e,
        {
            let (src, dst) = graph.get_edge_from_edge_id(e as EdgeT);
            if directed || src <= dst {
                let mut line: Vec<(String, usize)> = Vec::new();
                line.push((self.write_node(graph, src), self.sources_column_number));
                line.push((self.write_node(graph, dst), self.destinations_column_number));
                match &graph.edge_types {
                    Some(types) => {
                        line.push(
                            (
                                types.translate(types.ids[e]).to_string(),
                                self.edge_types_column_number,
                            ),
                        );
                    },
                    None => {},
                }
                if has_weights {
                    line.push((weights_text[e].clone(), self.weights_column_number));
                }
                proof {
                    assert(pairs_view(line@) =~= self.line_pairs(graph, e as int, texts[e as int]));
                }
                let ghost before = lines_view(lines@);
                let composed_line = compose_lines(number_of_columns, line);
                lines.push(composed_line);
                proof {
                    assert(lines_view(lines@) =~= before.push(line_view(composed_line@)));
                    assert(lines_view(lines@) =~= head + self.lines_upto(graph, texts, e + 1));
                }
            }
            e += 1;
        }
        Ok(lines)
    }
}

} // verus!

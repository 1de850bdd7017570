//! Value producers as Graphviz text.
//!
//! What a producer says is handed over as short texts, in the shape of the producer.
use vstd::prelude::*;

use crate::dag::graph::{truncate, truncated};
use crate::lang::sanitize::{Sanitizer, SanitizerV};
use crate::model::{models, Model};
use crate::text::{
    concat2, concat3, decimal, decimal_text, join, joined, quote, quoted, replace, replace_all, strs,
};

verus! {

/// The texts of a producer: for a rule table the condition and the value of each rule, its default
/// and its notes; for a tag read its keys, its notes and its steps; for a constant its value and its
/// notes; and what a read of the parent reads.
#[derive(Debug)]
pub enum Sketch {
    Match { rules: Vec<(String, String)>, default: Option<String>, annotate: Option<String> },
    Extract { keys: String, annotate: Option<String>, chain: Vec<String> },
    Const { value: String, annotate: Option<String> },
    Parent(Box<Sketch>),
}

/// The texts of a producer.
pub enum SketchV {
    Match {
        rules: Seq<(Seq<char>, Seq<char>)>,
        default: Option<Seq<char>>,
        annotate: Option<Seq<char>>,
    },
    Extract { keys: Seq<char>, annotate: Option<Seq<char>>, chain: Seq<Seq<char>> },
    Const { value: Seq<char>, annotate: Option<Seq<char>> },
    Parent(Box<SketchV>),
}

impl Sketch {
    pub open spec fn view(&self) -> SketchV
        decreases self,
    {
        match self {
            Sketch::Match { rules, default, annotate } => SketchV::Match {
                rules: models(rules@),
                default: default.model(),
                annotate: annotate.model(),
            },
            Sketch::Extract { keys, annotate, chain } => SketchV::Extract {
                keys: keys@,
                annotate: annotate.model(),
                chain: models(chain@),
            },
            Sketch::Const { value, annotate } => SketchV::Const {
                value: value@,
                annotate: annotate.model(),
            },
            Sketch::Parent(inner) => SketchV::Parent(Box::new((**inner).view())),
        }
    }
}

/// Lines of Graphviz text; nodes are numbered as they come.
#[derive(Debug)]
pub struct Graph {
    lines: Vec<String>,
    next_id: usize,
}

/// Lines of Graphviz text, and how many nodes they define.
#[verifier::ext_equal]
pub struct DotV {
    pub lines: Seq<Seq<char>>,
    pub next_id: nat,
}

/// A text inside quotes.
pub open spec fn escaped(s: Seq<char>) -> Seq<char> {
    replace_all(replace_all(replace_all(s, "\\"@, "\\\\"@), "\""@, "\\\""@), "\n"@, "\\n"@)
}

/// The name of the next node.
pub open spec fn dot_id(g: DotV) -> Seq<char> {
    "n"@ + decimal(g.next_id)
}

/// The lines with one more node.
pub open spec fn with_box(g: DotV, label: Seq<char>, shape: Seq<char>, color: Seq<char>) -> DotV {
    DotV {
        lines: g.lines.push(
            "  "@ + dot_id(g) + " [label=\""@ + escaped(label) + "\", shape="@ + shape
                + ", style=filled, fillcolor=\""@ + color + "\"];\n"@,
        ),
        next_id: g.next_id + 1,
    }
}

/// The lines with one more edge.
pub open spec fn with_arrow(g: DotV, from: Seq<char>, to: Seq<char>, label: Seq<char>) -> DotV {
    DotV {
        lines: g.lines.push(
            if label.len() == 0 {
                "  "@ + from + " -> "@ + to + ";\n"@
            } else {
                "  "@ + from + " -> "@ + to + " [label=\""@ + escaped(label) + "\"];\n"@
            },
        ),
        next_id: g.next_id,
    }
}

/// A label with the notes behind it, where there are any.
pub open spec fn with_notes(label: Seq<char>, annotate: Option<Seq<char>>) -> Seq<char> {
    match annotate {
        Some(a) => label + "\nannotate: "@ + truncated(a, 40),
        None => label,
    }
}

/// A label with the first `n` rules behind it.
pub open spec fn with_rules(
    label: Seq<char>,
    rules: Seq<(Seq<char>, Seq<char>)>,
    n: int,
) -> Seq<char>
    decreases n,
{
    if n <= 0 {
        label
    } else {
        with_rules(label, rules, n - 1) + "\n  "@ + truncated(rules[n - 1].0, 40) + " => "@
            + truncated(rules[n - 1].1, 20)
    }
}

/// How many rules a label lists.
pub open spec fn listed(n: nat) -> int {
    if n < 6 {
        n as int
    } else {
        6
    }
}

/// The label of a rule table: at most six rules, then how many more, the default and the notes.
pub open spec fn table_label(
    rules: Seq<(Seq<char>, Seq<char>)>,
    default: Option<Seq<char>>,
    annotate: Option<Seq<char>>,
) -> Seq<char> {
    let head = with_rules(
        "match\n"@ + decimal(rules.len()) + " rule(s)"@,
        rules,
        listed(rules.len()),
    );
    let more = if rules.len() > 6 {
        head + "\n  … +"@ + decimal((rules.len() - 6) as nat) + " more"@
    } else {
        head
    };
    let last = match default {
        Some(d) => more + "\ndefault => "@ + truncated(d, 20),
        None => more,
    };
    with_notes(last, annotate)
}

/// The first `n` steps of a chain drawn in a row, the first, and the last of them.
pub open spec fn chain_row(g: DotV, chain: Seq<Seq<char>>, n: nat) -> (DotV, Seq<char>, Seq<char>)
    decreases n,
{
    if n <= 1 {
        (with_box(g, chain[0], "ellipse"@, "#ead1dc"@), dot_id(g), dot_id(g))
    } else {
        let (h, first, last) = chain_row(g, chain, (n - 1) as nat);
        let id = dot_id(h);
        (with_arrow(with_box(h, chain[n - 1], "ellipse"@, "#ead1dc"@), last, id, ""@), first, id)
    }
}

/// A producer drawn into the lines, and the node that stands for it.
pub open spec fn sketched(g: DotV, s: SketchV) -> (DotV, Seq<char>)
    decreases s,
{
    let id = dot_id(g);
    match s {
        SketchV::Match { rules, default, annotate } => (
            with_box(g, table_label(rules, default, annotate), "note"@, "#e2f0d9"@),
            id,
        ),
        SketchV::Extract { keys, annotate, chain } => {
            let h = with_box(
                g,
                with_notes("extract\n"@ + keys, annotate),
                "box"@,
                "#d9e8fb"@,
            );
            if chain.len() == 0 {
                (h, id)
            } else {
                let (k, first, _) = chain_row(h, chain, chain.len());
                (with_arrow(k, id, first, "sanitize"@), id)
            }
        },
        SketchV::Const { value, annotate } => (
            with_box(
                g,
                with_notes("const\nvalue: "@ + truncated(value, 40), annotate),
                "box"@,
                "#d9e8fb"@,
            ),
            id,
        ),
        SketchV::Parent(inner) => {
            let (h, child) = sketched(with_box(g, "parent"@, "diamond"@, "#fff2cc"@), *inner);
            (with_arrow(h, id, child, ""@), id)
        },
    }
}

/// Names in a row: at most six, then how many more.
pub open spec fn name_row(labels: Seq<Seq<char>>) -> Seq<char> {
    if labels.len() > 6 {
        joined(labels.take(6), ", "@) + ", … +"@ + decimal((labels.len() - 6) as nat) + " more"@
    } else {
        joined(labels, ", "@)
    }
}

/// The lines of an output: who produces it, and how.
pub open spec fn output_lines(
    topic: Seq<char>,
    field: Seq<char>,
    labels: Seq<Seq<char>>,
    s: SketchV,
) -> Seq<Seq<char>> {
    let blank = DotV { lines: Seq::empty(), next_id: 0 };
    let root = with_box(
        blank,
        topic + "\n"@ + field + "\n["@ + name_row(labels) + "]"@,
        "box"@,
        "#dbe9f6"@,
    );
    let (g, child) = sketched(root, s);
    with_arrow(g, dot_id(blank), child, ""@).lines
}

/// What a Graphviz file starts with.
pub const DOT_HEAD: &'static str =
    "digraph dag {\n  rankdir=TB;\n  node [fontname=\"sans-serif\", fontsize=11];\n  edge [fontname=\"sans-serif\", fontsize=9];\n";

/// A text inside quotes.
pub fn escape(s: &str) -> (r: String)
    ensures
        r@ == escaped(s@),
{
    let a: String = replace(s, "\\", "\\\\");
    let b: String = replace(a.as_str(), "\"", "\\\"");
    replace(b.as_str(), "\n", "\\n")
}

impl Graph {
    pub closed spec fn view(&self) -> DotV {
        DotV { lines: strs(self.lines@), next_id: self.next_id as nat }
    }

    /// No lines.
    pub fn new() -> (r: Graph)
        ensures
            r@ == (DotV { lines: Seq::empty(), next_id: 0 }),
    {
        let r: Graph = Graph { lines: Vec::new(), next_id: 0 };
        assert(r@ =~= (DotV { lines: Seq::empty(), next_id: 0 }));
        r
    }

    /// Adds a node and gives its name.
    pub fn node(&mut self, label: &str, shape: &str, color: &str) -> (r: String)
        requires
            old(self)@.next_id < usize::MAX,
        ensures
            final(self)@ == with_box(old(self)@, label@, shape@, color@),
            r@ == dot_id(old(self)@),
    {
        let ghost before = self@;
        let id: String = concat2("n", decimal_text(self.next_id as u64).as_str());
        let mut line: String = concat2("  ", id.as_str());
        line.append(" [label=\"");
        line.append(escape(label).as_str());
        line.append("\", shape=");
        line.append(shape);
        line.append(", style=filled, fillcolor=\"");
        line.append(color);
        line.append("\"];\n");
        self.lines.push(line);
        self.next_id = self.next_id + 1;
        assert(self@ =~= with_box(before, label@, shape@, color@));
        id
    }

    /// Adds an edge.
    pub fn edge(&mut self, from: &str, to: &str, label: &str)
        ensures
            final(self)@ == with_arrow(old(self)@, from@, to@, label@),
    {
        let ghost before = self@;
        let mut line: String = concat2("  ", from);
        line.append(" -> ");
        line.append(to);
        if label.unicode_len() == 0 {
            line.append(";\n");
        } else {
            line.append(" [label=\"");
            line.append(escape(label).as_str());
            line.append("\"];\n");
        }
        self.lines.push(line);
        assert(self@ =~= with_arrow(before, from@, to@, label@));
    }

    /// The lines as one text.
    pub fn text(&self) -> (r: String)
        ensures
            r@ == joined(self@.lines, ""@),
    {
        join(&self.lines, "")
    }
}

fn add_notes(label: &mut String, annotate: &Option<String>)
    ensures
        final(label)@ == with_notes(old(label)@, annotate.model()),
{
    if let Some(a) = annotate {
        label.append("\nannotate: ");
        label.append(truncate(a.as_str(), 40).as_str());
    }
}

fn show_table(
    rules: &Vec<(String, String)>,
    default: &Option<String>,
    annotate: &Option<String>,
) -> (r: String)
    ensures
        r@ == table_label(models(rules@), default.model(), annotate.model()),
{
    let ghost rv = models(rules@);
    let n: usize = rules.len();
    assert(rv.len() == n);
    let mut label: String = concat3("match\n", decimal_text(n as u64).as_str(), " rule(s)");
    let ghost head = label@;
    let shown: usize = if n < 6 {
        n
    } else {
        6
    };
    let mut i: usize = 0;
    while i < shown
        invariant
            i <= shown <= n,
            n == rules@.len(),
            rv == models(rules@),
            label@ == with_rules(head, rv, i as int),
        decreases shown - i,
    {
        assert(rv[i as int] == (rules@[i as int].0@, rules@[i as int].1@));
        label.append("\n  ");
        label.append(truncate(rules[i].0.as_str(), 40).as_str());
        label.append(" => ");
        label.append(truncate(rules[i].1.as_str(), 20).as_str());
        i = i + 1;
    }
    if n > 6 {
        label.append("\n  … +");
        label.append(decimal_text((n - 6) as u64).as_str());
        label.append(" more");
    }
    if let Some(d) = default {
        label.append("\ndefault => ");
        label.append(truncate(d.as_str(), 20).as_str());
    }
    add_notes(&mut label, annotate);
    label
}

/// How many nodes a producer is drawn with.
pub open spec fn node_count(s: SketchV) -> nat
    decreases s,
{
    match s {
        SketchV::Extract { chain, .. } => 1 + chain.len(),
        SketchV::Parent(inner) => 1 + node_count(*inner),
        _ => 1,
    }
}

proof fn lemma_row_count(g: DotV, chain: Seq<Seq<char>>, n: nat)
    requires
        n >= 1,
    ensures
        chain_row(g, chain, n).0.next_id == g.next_id + n,
    decreases n,
{
    if n > 1 {
        lemma_row_count(g, chain, (n - 1) as nat);
    }
}

fn render_chain(g: &mut Graph, chain: &Vec<String>) -> (r: String)
    requires
        chain@.len() > 0,
        old(g)@.next_id + chain@.len() <= usize::MAX,
    ensures
        (final(g)@, r@) == (
            chain_row(old(g)@, models(chain@), chain@.len()).0,
            chain_row(old(g)@, models(chain@), chain@.len()).1,
        ),
{
    let ghost start = g@;
    let ghost all = models(chain@);
    assert(all[0] == chain@[0]@);
    let first: String = g.node(chain[0].as_str(), "ellipse", "#ead1dc");
    let mut prev: String = first.clone();
    let mut i: usize = 1;
    while i < chain.len()
        invariant
            1 <= i <= chain@.len(),
            all == models(chain@),
            start.next_id + chain@.len() <= usize::MAX,
            (g@, first@, prev@) == chain_row(start, all, i as nat),
        decreases chain.len() - i,
    {
        proof {
            lemma_row_count(start, all, i as nat);
            assert(all[i as int] == chain@[i as int]@);
        }
        let id: String = g.node(chain[i].as_str(), "ellipse", "#ead1dc");
        g.edge(prev.as_str(), id.as_str(), "");
        prev = id;
        i = i + 1;
    }
    first
}

fn render_producer(g: &mut Graph, s: &Sketch) -> (r: String)
    requires
        old(g)@.next_id + node_count(s@) <= usize::MAX,
    ensures
        (final(g)@, r@) == sketched(old(g)@, s@),
    decreases s,
{
    match s {
        Sketch::Match { rules, default, annotate } => g.node(
            show_table(rules, default, annotate).as_str(),
            "note",
            "#e2f0d9",
        ),
        Sketch::Extract { keys, annotate, chain } => {
            let mut label: String = concat2("extract\n", keys.as_str());
            add_notes(&mut label, annotate);
            assert(models(chain@).len() == chain@.len());
            let node: String = g.node(label.as_str(), "box", "#d9e8fb");
            if chain.len() > 0 {
                let first: String = render_chain(g, chain);
                g.edge(node.as_str(), first.as_str(), "sanitize");
            }
            node
        },
        Sketch::Const { value, annotate } => {
            let mut label: String = concat2(
                "const\nvalue: ",
                truncate(value.as_str(), 40).as_str(),
            );
            add_notes(&mut label, annotate);
            g.node(label.as_str(), "box", "#d9e8fb")
        },
        Sketch::Parent(inner) => {
            let node: String = g.node("parent", "diamond", "#fff2cc");
            let child: String = render_producer(g, inner);
            g.edge(node.as_str(), child.as_str(), "");
            node
        },
    }
}

fn show_names(labels: &Vec<String>) -> (r: String)
    ensures
        r@ == name_row(models(labels@)),
{
    let n: usize = labels.len();
    assert(models(labels@) =~= strs(labels@));
    if n > 6 {
        let mut head: Vec<String> = Vec::new();
        let mut i: usize = 0;
        while i < 6
            invariant
                i <= 6,
                labels@.len() > 6,
                strs(head@) =~= strs(labels@).take(i as int),
            decreases 6 - i,
        {
            let one: String = labels[i].clone();
            let ghost before = strs(head@);
            head.push(one);
            assert(strs(labels@)[i as int] == one@);
            assert(strs(head@) =~= before.push(one@));
            i = i + 1;
        }
        let mut out: String = join(&head, ", ");
        out.append(", … +");
        out.append(decimal_text((n - 6) as u64).as_str());
        out.append(" more");
        out
    } else {
        join(labels, ", ")
    }
}

/// The Graphviz text of an output: `labels` are those who produce it this way.
pub fn render_dot(topic: &str, field: &str, labels: &Vec<String>, producer: &Sketch) -> (r: String)
    requires
        node_count(producer@) < usize::MAX,
    ensures
        r@ == DOT_HEAD@ + joined(
            output_lines(topic@, field@, models(labels@), producer@),
            ""@,
        ) + "}\n"@,
{
    let mut g: Graph = Graph::new();
    let mut head: String = concat3(topic, "\n", field);
    head.append("\n[");
    head.append(show_names(labels).as_str());
    head.append("]");
    let root: String = g.node(head.as_str(), "box", "#dbe9f6");
    let child: String = render_producer(&mut g, producer);
    g.edge(root.as_str(), child.as_str(), "");
    proof {
        reveal_strlit("");
    }
    concat3(DOT_HEAD, g.text().as_str(), "}\n")
}

/// A step of a chain, as it is shown in Graphviz text.
pub open spec fn short_step(s: SanitizerV) -> Seq<char> {
    match s {
        SanitizerV::Mapping { mapping, on_miss } => "mapping\n"@ + decimal(mapping.len())
            + " entries\non_miss: "@ + quoted(
            match on_miss {
                Some(m) => m,
                None => "drop"@,
            },
        ),
        SanitizerV::Replace { replace } => "replace\n"@ + decimal(replace.len()) + " rule(s)"@,
        SanitizerV::Builtin(b) => "builtin: "@ + b.spec_name(),
    }
}

/// A step of a chain, as it is shown in Graphviz text.
pub fn short_step_label(step: &Sanitizer) -> (r: String)
    ensures
        r@ == short_step(step@),
{
    match step {
        Sanitizer::Mapping { mapping, on_miss } => {
            assert(models(mapping@).len() == mapping@.len());
            let miss: &str = match on_miss {
                Some(m) => m.as_str(),
                None => "drop",
            };
            let mut out: String = concat3(
                "mapping\n",
                decimal_text(mapping.len() as u64).as_str(),
                " entries\non_miss: ",
            );
            out.append(quote(miss).as_str());
            out
        },
        Sanitizer::Replace { replace } => {
            assert(models(replace@).len() == replace@.len());
            concat3("replace\n", decimal_text(replace.len() as u64).as_str(), " rule(s)")
        },
        Sanitizer::Builtin(b) => concat2("builtin: ", b.name()),
    }
}

} // verus!

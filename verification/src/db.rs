//! The document store: the block table, the language-binding table, the
//! symmetric reference graph and the rendered-HTML cache, merged over every
//! scanned file. Inserting a block records a symmetric graph edge for every
//! link or embed it holds; on a duplicate name the last write wins, and edges
//! contributed by the overwritten block are not retracted.

use vstd::prelude::*;

use crate::common::Block;
use crate::common::BlockContentView;
use crate::common::BlockView;
use crate::common::clone_strings;
use crate::common::contains_string;
use crate::config::LanguageConfig;
use crate::config::LanguageConfigView;
use crate::table::Table;

verus! {

/// The block table: block name to block.
pub type BlockDB = Table<Block>;

/// The HTML cache: block name to rendered page.
pub type HtmlDB = Table<String>;

/// The reference graph: block name to its neighbors, without duplicates.
pub type GraphDB = Table<Vec<String>>;

/// The language-binding table: block name to the delimiters it was parsed
/// with.
pub type LangDB = Table<LanguageConfig>;

/// Mathematical value of an [`AnubisDatabase`]: its four tables as maps.
#[verifier::ext_equal]
pub ghost struct DatabaseView {
    pub blocks: Map<Seq<char>, BlockView>,
    pub htmls: Map<Seq<char>, Seq<char>>,
    pub graph: Map<Seq<char>, Seq<Seq<char>>>,
    pub langs: Map<Seq<char>, LanguageConfigView>,
}

/// The process-wide document store. Mutated while files are parsed (blocks,
/// graph, language bindings) and while blocks are rendered (HTML cache);
/// read-only once served.
pub struct AnubisDatabase {
    pub block_db: BlockDB,
    pub html_db: HtmlDB,
    pub graph_db: GraphDB,
    pub lang_db: LangDB,
}

impl View for AnubisDatabase {
    type V = DatabaseView;

    open spec fn view(&self) -> DatabaseView {
        DatabaseView {
            blocks: self.block_db@,
            htmls: self.html_db@,
            graph: self.graph_db@,
            langs: self.lang_db@,
        }
    }
}

/// One directed insertion into the adjacency of `a`: `b` joins `a`'s neighbor
/// list unless already present (set semantics).
pub open spec fn spec_add_edge(
    g: Map<Seq<char>, Seq<Seq<char>>>,
    a: Seq<char>,
    b: Seq<char>,
) -> Map<Seq<char>, Seq<Seq<char>>> {
    if g.contains_key(a) {
        if g[a].contains(b) {
            g
        } else {
            g.insert(a, g[a].push(b))
        }
    } else {
        g.insert(a, seq![b])
    }
}

/// A symmetric edge: `b` joins `a`'s neighbors and `a` joins `b`'s.
pub open spec fn spec_add_edge_undirected(
    g: Map<Seq<char>, Seq<Seq<char>>>,
    a: Seq<char>,
    b: Seq<char>,
) -> Map<Seq<char>, Seq<Seq<char>>> {
    spec_add_edge(spec_add_edge(g, a, b), b, a)
}

/// The names a block's content references through a link or an embed, in
/// document order.
pub open spec fn spec_targets(content: Seq<BlockContentView>) -> Seq<Seq<char>>
    decreases content.len(),
{
    if content.len() == 0 {
        Seq::empty()
    } else {
        spec_targets(content.drop_last()) + (match content.last() {
            BlockContentView::Link(t) => seq![t],
            BlockContentView::Embed(t) => seq![t],
            _ => Seq::empty(),
        })
    }
}

/// A symmetric edge between `name` and each target, in order.
pub open spec fn spec_add_edges(
    g: Map<Seq<char>, Seq<Seq<char>>>,
    name: Seq<char>,
    targets: Seq<Seq<char>>,
) -> Map<Seq<char>, Seq<Seq<char>>>
    decreases targets.len(),
{
    if targets.len() == 0 {
        g
    } else {
        spec_add_edge_undirected(
            spec_add_edges(g, name, targets.drop_last()),
            name,
            targets.last(),
        )
    }
}

/// A graph node for `name`: the graph unchanged if the name already has an
/// entry, else the name with an empty neighbor list.
pub open spec fn spec_ensure_node(
    g: Map<Seq<char>, Seq<Seq<char>>>,
    name: Seq<char>,
) -> Map<Seq<char>, Seq<Seq<char>>> {
    if g.contains_key(name) {
        g
    } else {
        g.insert(name, Seq::empty())
    }
}

/// What inserting a block does to the store: the block and its language
/// binding overwrite any entry under the same name, the block's name gains a
/// graph entry (empty when it references nothing), a symmetric edge is
/// recorded for every link or embed, and the HTML cache is untouched.
pub open spec fn spec_insert_block(
    d: DatabaseView,
    b: BlockView,
    l: LanguageConfigView,
) -> DatabaseView {
    DatabaseView {
        blocks: d.blocks.insert(b.info.name, b),
        htmls: d.htmls,
        graph: spec_add_edges(
            spec_ensure_node(d.graph, b.info.name),
            b.info.name,
            spec_targets(b.content),
        ),
        langs: d.langs.insert(b.info.name, l),
    }
}

/// Inserting a sequence of blocks, in order.
pub open spec fn spec_insert_blocks(
    d: DatabaseView,
    bs: Seq<BlockView>,
    l: LanguageConfigView,
) -> DatabaseView
    decreases bs.len(),
{
    if bs.len() == 0 {
        d
    } else {
        spec_insert_block(spec_insert_blocks(d, bs.drop_last(), l), bs.last(), l)
    }
}

impl AnubisDatabase {
    /// All four tables have distinct keys.
    pub open spec fn wf(&self) -> bool {
        &&& self.block_db.wf()
        &&& self.html_db.wf()
        &&& self.graph_db.wf()
        &&& self.lang_db.wf()
    }

    /// Creates an empty store.
    pub fn new() -> (r: Self)
        ensures
            r.wf(),
            r@.blocks == Map::<Seq<char>, BlockView>::empty(),
            r@.htmls == Map::<Seq<char>, Seq<char>>::empty(),
            r@.graph == Map::<Seq<char>, Seq<Seq<char>>>::empty(),
            r@.langs == Map::<Seq<char>, LanguageConfigView>::empty(),
    {
        AnubisDatabase {
            block_db: Table::new(),
            html_db: Table::new(),
            graph_db: Table::new(),
            lang_db: Table::new(),
        }
    }

    /// Looks a block up by name.
    pub fn get_block(&self, header: &str) -> (r: Option<&Block>)
        requires
            self.wf(),
        ensures
            match r {
                Some(b) => self@.blocks.contains_key(header@) && b@ == self@.blocks[header@],
                None => !self@.blocks.contains_key(header@),
            },
    {
        self.block_db.get(header)
    }

    /// Looks a cached rendering up by block name.
    pub fn get_html(&self, header: &str) -> (r: Option<&String>)
        requires
            self.wf(),
        ensures
            match r {
                Some(h) => self@.htmls.contains_key(header@) && h@ == self@.htmls[header@],
                None => !self@.htmls.contains_key(header@),
            },
    {
        self.html_db.get(header)
    }

    /// Looks a block's neighbors in the reference graph up.
    pub fn get_connections(&self, header: &str) -> (r: Option<&Vec<String>>)
        requires
            self.wf(),
        ensures
            match r {
                Some(v) => self@.graph.contains_key(header@) && v.deep_view()
                    == self@.graph[header@],
                None => !self@.graph.contains_key(header@),
            },
    {
        self.graph_db.get(header)
    }

    /// Looks a block's language binding up.
    pub fn get_lang(&self, header: &str) -> (r: Option<&LanguageConfig>)
        requires
            self.wf(),
        ensures
            match r {
                Some(l) => self@.langs.contains_key(header@) && l@ == self@.langs[header@],
                None => !self@.langs.contains_key(header@),
            },
    {
        self.lang_db.get(header)
    }

    /// Caches rendered HTML under a block name.
    pub fn insert_html(&mut self, header: String, html_string: String)
        requires
            old(self).wf(),
        ensures
            final(self).wf(),
            final(self)@ == (DatabaseView {
                htmls: old(self)@.htmls.insert(header@, html_string@),
                ..old(self)@
            }),
    {
        self.html_db.insert(header, html_string);
    }

    /// Records `node_2` among `node_1`'s neighbors, once.
    pub fn add_edge(&mut self, node_1: String, node_2: String)
        requires
            old(self).wf(),
        ensures
            final(self).wf(),
            final(self)@ == (DatabaseView {
                graph: spec_add_edge(old(self)@.graph, node_1@, node_2@),
                ..old(self)@
            }),
    {
        let ghost n1v = node_1@;
        let ghost n2v = node_2@;
        let new_adj: Vec<String> = match self.graph_db.get(node_1.as_str()) {
            Some(adj) => {
                if contains_string(adj, node_2.as_str()) {
                    proof {
                        assert(self@ =~= (DatabaseView {
                            graph: spec_add_edge(old(self)@.graph, node_1@, node_2@),
                            ..old(self)@
                        }));
                    }
                    return ;
                }
                let mut v = clone_strings(adj);
                v.push(node_2);
                proof {
                    assert(v.deep_view() =~= old(self)@.graph[node_1@].push(n2v));
                }
                v
            },
            None => {
                let mut v: Vec<String> = Vec::new();
                v.push(node_2);
                proof {
                    assert(v.deep_view() =~= seq![n2v]);
                }
                v
            },
        };
        self.graph_db.insert(node_1, new_adj);
        proof {
            assert(self@ =~= (DatabaseView {
                graph: spec_add_edge(old(self)@.graph, n1v, n2v),
                ..old(self)@
            }));
        }
    }

    /// Records a symmetric edge between `node_1` and `node_2`.
    pub fn add_edge_undirected(&mut self, node_1: String, node_2: String)
        requires
            old(self).wf(),
        ensures
            final(self).wf(),
            final(self)@ == (DatabaseView {
                graph: spec_add_edge_undirected(old(self)@.graph, node_1@, node_2@),
                ..old(self)@
            }),
    {
        self.add_edge(node_1.clone(), node_2.clone());
        self.add_edge(node_2, node_1);
    }

    /// Inserts a block under its name: records a symmetric graph edge for
    /// every link or embed in its content, then binds its language and stores
    /// the block itself, overwriting earlier entries under the same name.
    pub fn insert_block(&mut self, block: &Block, lang: &LanguageConfig)
        requires
            old(self).wf(),
        ensures
            final(self).wf(),
            final(self)@ == spec_insert_block(old(self)@, block@, lang@),
    {
        if !self.graph_db.contains_key(block.info.name.as_str()) {
            let empty_adjacency: Vec<String> = Vec::new();
            proof {
                assert(empty_adjacency.deep_view() =~= Seq::<Seq<char>>::empty());
            }
            self.graph_db.insert(block.info.name.clone(), empty_adjacency);
        }
        proof {
            assert(self@.graph == spec_ensure_node(old(self)@.graph, block@.info.name));
        }
        let n = block.content.len();
        let mut i: usize = 0;
        while i < n
            invariant
                self.wf(),
                n == block.content@.len(),
                i <= n,
                self@.blocks == old(self)@.blocks,
                self@.htmls == old(self)@.htmls,
                self@.langs == old(self)@.langs,
                self@.graph == spec_add_edges(
                    spec_ensure_node(old(self)@.graph, block@.info.name),
                    block@.info.name,
                    spec_targets(block@.content.take(i as int)),
                ),
            decreases n - i,
        {
            let ghost ts = spec_targets(block@.content.take(i as int));
            match &block.content[i] {
                crate::common::BlockContent::Embed(header) => {
                    self.add_edge_undirected(block.info.name.clone(), header.clone());
                },
                crate::common::BlockContent::Link(header) => {
                    self.add_edge_undirected(block.info.name.clone(), header.clone());
                },
                _ => {},
            }
            proof {
                assert(block@.content.take(i + 1).drop_last() =~= block@.content.take(i as int));
                assert(block@.content.take(i + 1).last() == block@.content[i as int]);
                let ts2 = spec_targets(block@.content.take(i + 1));
                match block@.content[i as int] {
                    BlockContentView::Link(t) => {
                        assert(ts2 == ts + seq![t]);
                        assert((ts + seq![t]).drop_last() =~= ts);
                        assert((ts + seq![t]).last() == t);
                    },
                    BlockContentView::Embed(t) => {
                        assert(ts2 == ts + seq![t]);
                        assert((ts + seq![t]).drop_last() =~= ts);
                        assert((ts + seq![t]).last() == t);
                    },
                    _ => {
                        assert(ts2 =~= ts);
                    },
                }
            }
            i += 1;
        }
        proof {
            assert(block@.content.take(n as int) =~= block@.content);
        }
        self.lang_db.insert(block.info.name.clone(), lang.clone());
        self.block_db.insert(block.info.name.clone(), block.clone());
        proof {
            assert(self@ =~= spec_insert_block(old(self)@, block@, lang@));
        }
    }

    /// Inserts every block of a scanned file, in file order.
    pub fn insert_blocks(&mut self, blocks: Vec<Block>, lang: &LanguageConfig)
        requires
            old(self).wf(),
        ensures
            final(self).wf(),
            final(self)@ == spec_insert_blocks(
                old(self)@,
                crate::parser_core::views_of_blocks(blocks@),
                lang@,
            ),
    {
        let n = blocks.len();
        let mut i: usize = 0;
        while i < n
            invariant
                self.wf(),
                n == blocks@.len(),
                i <= n,
                self@ == spec_insert_blocks(
                    old(self)@,
                    crate::parser_core::views_of_blocks(blocks@.take(i as int)),
                    lang@,
                ),
            decreases n - i,
        {
            self.insert_block(&blocks[i], lang);
            proof {
                let bv = crate::parser_core::views_of_blocks(blocks@);
                assert(crate::parser_core::views_of_blocks(blocks@.take(i + 1)).drop_last()
                    =~= crate::parser_core::views_of_blocks(blocks@.take(i as int)));
                assert(crate::parser_core::views_of_blocks(blocks@.take(i + 1)).last()
                    == blocks@[i as int]@);
            }
            i += 1;
        }
        proof {
            assert(crate::parser_core::views_of_blocks(blocks@.take(n as int))
                =~= crate::parser_core::views_of_blocks(blocks@));
        }
    }
}

impl Default for AnubisDatabase {
    /// An empty store.
    fn default() -> (r: Self)
        ensures
            r.wf(),
            r@.blocks == Map::<Seq<char>, BlockView>::empty(),
            r@.htmls == Map::<Seq<char>, Seq<char>>::empty(),
            r@.graph == Map::<Seq<char>, Seq<Seq<char>>>::empty(),
            r@.langs == Map::<Seq<char>, LanguageConfigView>::empty(),
    {
        AnubisDatabase::new()
    }
}

/// Every neighbor relation in the graph runs both ways.
pub open spec fn graph_symmetric(g: Map<Seq<char>, Seq<Seq<char>>>) -> bool {
    forall|a: Seq<char>, b: Seq<char>|
        g.contains_key(a) && #[trigger] g[a].contains(b) ==> g.contains_key(b) && g[b].contains(a)
}

/// What one directed insertion does: it records exactly the edge `(a, b)` and
/// keeps every edge that was already there.
pub proof fn lemma_add_edge_props(g: Map<Seq<char>, Seq<Seq<char>>>, a: Seq<char>, b: Seq<char>)
    ensures
        spec_add_edge(g, a, b).contains_key(a),
        spec_add_edge(g, a, b)[a].contains(b),
        forall|x: Seq<char>|
            #[trigger] spec_add_edge(g, a, b).contains_key(x) <==> g.contains_key(x) || x == a,
        forall|x: Seq<char>, y: Seq<char>|
            spec_add_edge(g, a, b).contains_key(x) && #[trigger] spec_add_edge(g, a, b)[x].contains(
                y,
            ) ==> (g.contains_key(x) && g[x].contains(y)) || (x == a && y == b),
        forall|x: Seq<char>, y: Seq<char>|
            g.contains_key(x) && #[trigger] g[x].contains(y) ==> spec_add_edge(g, a, b).contains_key(
                x,
            ) && spec_add_edge(g, a, b)[x].contains(y),
{
    let g2 = spec_add_edge(g, a, b);
    if g.contains_key(a) {
        if g[a].contains(b) {
        } else {
            assert(g2[a] == g[a].push(b));
            assert(g2[a][g[a].len() as int] == b);
            assert(g2[a].contains(b));
            assert forall|x: Seq<char>, y: Seq<char>|
                g2.contains_key(x) && #[trigger] g2[x].contains(y) implies (g.contains_key(x)
                && g[x].contains(y)) || (x == a && y == b) by {
                if x == a {
                    let i = choose|i: int| 0 <= i < g2[a].len() && g2[a][i] == y;
                    if i < g[a].len() {
                        assert(g[a][i] == y);
                    }
                }
            }
            assert forall|x: Seq<char>, y: Seq<char>|
                g.contains_key(x) && #[trigger] g[x].contains(y) implies g2.contains_key(x)
                && g2[x].contains(y) by {
                if x == a {
                    let i = choose|i: int| 0 <= i < g[a].len() && g[a][i] == y;
                    assert(g2[a][i] == y);
                }
            }
        }
    } else {
        assert(g2[a] == seq![b]);
        assert(g2[a][0] == b);
    }
}

/// What one symmetric insertion does: it records exactly the edges `(a, b)`
/// and `(b, a)`, keeps every earlier edge, and preserves symmetry.
pub proof fn lemma_add_edge_undirected_props(
    g: Map<Seq<char>, Seq<Seq<char>>>,
    a: Seq<char>,
    b: Seq<char>,
)
    ensures
        spec_add_edge_undirected(g, a, b).contains_key(a),
        spec_add_edge_undirected(g, a, b)[a].contains(b),
        spec_add_edge_undirected(g, a, b).contains_key(b),
        spec_add_edge_undirected(g, a, b)[b].contains(a),
        forall|x: Seq<char>, y: Seq<char>|
            spec_add_edge_undirected(g, a, b).contains_key(x) && #[trigger] spec_add_edge_undirected(
                g,
                a,
                b,
            )[x].contains(y) ==> (g.contains_key(x) && g[x].contains(y)) || (x == a && y == b) || (x
                == b && y == a),
        forall|x: Seq<char>, y: Seq<char>|
            g.contains_key(x) && #[trigger] g[x].contains(y) ==> spec_add_edge_undirected(
                g,
                a,
                b,
            ).contains_key(x) && spec_add_edge_undirected(g, a, b)[x].contains(y),
        graph_symmetric(g) ==> graph_symmetric(spec_add_edge_undirected(g, a, b)),
{
    let g1 = spec_add_edge(g, a, b);
    let g2 = spec_add_edge_undirected(g, a, b);
    lemma_add_edge_props(g, a, b);
    lemma_add_edge_props(g1, b, a);
    if graph_symmetric(g) {
        assert forall|x: Seq<char>, y: Seq<char>|
            g2.contains_key(x) && #[trigger] g2[x].contains(y) implies g2.contains_key(y)
            && g2[y].contains(x) by {
            if g.contains_key(x) && g[x].contains(y) {
                assert(g.contains_key(y) && g[y].contains(x));
            }
        }
    }
}

/// What recording a block's references does: every target gains an edge to
/// the block and back, every earlier edge is kept, no other edge appears, and
/// symmetry is preserved.
pub proof fn lemma_add_edges_props(
    g: Map<Seq<char>, Seq<Seq<char>>>,
    name: Seq<char>,
    targets: Seq<Seq<char>>,
)
    ensures
        forall|x: Seq<char>|
            #[trigger] g.contains_key(x) ==> spec_add_edges(g, name, targets).contains_key(x),
        forall|t: Seq<char>|
            #[trigger] targets.contains(t) ==> spec_add_edges(g, name, targets).contains_key(name)
                && spec_add_edges(g, name, targets)[name].contains(t) && spec_add_edges(
                g,
                name,
                targets,
            ).contains_key(t) && spec_add_edges(g, name, targets)[t].contains(name),
        forall|x: Seq<char>, y: Seq<char>|
            g.contains_key(x) && #[trigger] g[x].contains(y) ==> spec_add_edges(
                g,
                name,
                targets,
            ).contains_key(x) && spec_add_edges(g, name, targets)[x].contains(y),
        forall|x: Seq<char>, y: Seq<char>|
            spec_add_edges(g, name, targets).contains_key(x) && #[trigger] spec_add_edges(
                g,
                name,
                targets,
            )[x].contains(y) ==> (g.contains_key(x) && g[x].contains(y)) || (x == name
                && targets.contains(y)) || (y == name && targets.contains(x)),
        graph_symmetric(g) ==> graph_symmetric(spec_add_edges(g, name, targets)),
    decreases targets.len(),
{
    if targets.len() == 0 {
    } else {
        let dl = targets.drop_last();
        let last = targets.last();
        let g1 = spec_add_edges(g, name, dl);
        let g2 = spec_add_edges(g, name, targets);
        lemma_add_edges_props(g, name, dl);
        lemma_add_edge_undirected_props(g1, name, last);
        assert(targets.contains(last)) by {
            assert(targets[targets.len() - 1] == last);
        }
        assert forall|t: Seq<char>| #[trigger] targets.contains(t) implies g2.contains_key(name)
            && g2[name].contains(t) && g2.contains_key(t) && g2[t].contains(name) by {
            let i = choose|i: int| 0 <= i < targets.len() && targets[i] == t;
            if i < targets.len() - 1 {
                assert(dl[i] == t);
                assert(dl.contains(t));
                assert(g1.contains_key(name) && g1[name].contains(t) && g1.contains_key(t)
                    && g1[t].contains(name));
            }
        }
        assert forall|x: Seq<char>, y: Seq<char>|
            g2.contains_key(x) && #[trigger] g2[x].contains(y) implies (g.contains_key(x)
            && g[x].contains(y)) || (x == name && targets.contains(y)) || (y == name
            && targets.contains(x)) by {
            if g1.contains_key(x) && g1[x].contains(y) {
                if x == name && dl.contains(y) {
                    let i = choose|i: int| 0 <= i < dl.len() && dl[i] == y;
                    assert(targets[i] == y);
                } else if y == name && dl.contains(x) {
                    let i = choose|i: int| 0 <= i < dl.len() && dl[i] == x;
                    assert(targets[i] == x);
                }
            }
        }
    }
}

/// The names a block references are exactly the targets of its link and
/// embed items.
pub proof fn lemma_targets_contains(content: Seq<BlockContentView>, i: int)
    requires
        0 <= i < content.len(),
    ensures
        content[i] matches BlockContentView::Link(t) ==> spec_targets(content).contains(t),
        content[i] matches BlockContentView::Embed(t) ==> spec_targets(content).contains(t),
    decreases content.len(),
{
    let dl = content.drop_last();
    if i == content.len() - 1 {
        match content[i] {
            BlockContentView::Link(t) => {
                assert(spec_targets(content) == spec_targets(dl) + seq![t]);
                assert(spec_targets(content)[spec_targets(dl).len() as int] == t);
            },
            BlockContentView::Embed(t) => {
                assert(spec_targets(content) == spec_targets(dl) + seq![t]);
                assert(spec_targets(content)[spec_targets(dl).len() as int] == t);
            },
            _ => {},
        }
    } else {
        lemma_targets_contains(dl, i);
        assert(dl[i] == content[i]);
        match content[i] {
            BlockContentView::Link(t) => {
                let j = choose|j: int| 0 <= j < spec_targets(dl).len() && spec_targets(dl)[j] == t;
                assert(spec_targets(content)[j] == t);
            },
            BlockContentView::Embed(t) => {
                let j = choose|j: int| 0 <= j < spec_targets(dl).len() && spec_targets(dl)[j] == t;
                assert(spec_targets(content)[j] == t);
            },
            _ => {},
        }
    }
}

/// What ensuring a graph node does: the name gains an entry, every other
/// entry and every edge is kept, no edge appears, and symmetry is preserved.
pub proof fn lemma_ensure_node_props(g: Map<Seq<char>, Seq<Seq<char>>>, name: Seq<char>)
    ensures
        spec_ensure_node(g, name).contains_key(name),
        forall|x: Seq<char>|
            #[trigger] g.contains_key(x) ==> spec_ensure_node(g, name).contains_key(x),
        forall|x: Seq<char>, y: Seq<char>|
            spec_ensure_node(g, name).contains_key(x) && #[trigger] spec_ensure_node(
                g,
                name,
            )[x].contains(y) ==> g.contains_key(x) && g[x].contains(y),
        forall|x: Seq<char>, y: Seq<char>|
            g.contains_key(x) && #[trigger] g[x].contains(y) ==> spec_ensure_node(
                g,
                name,
            ).contains_key(x) && spec_ensure_node(g, name)[x].contains(y),
        graph_symmetric(g) ==> graph_symmetric(spec_ensure_node(g, name)),
{
    if !g.contains_key(name) {
        assert(spec_ensure_node(g, name)[name].len() == 0);
    }
}

/// Symmetry of the reference graph: inserting a block records, for every
/// block B that a link or embed of block A references, an edge from A to B
/// and an edge from B to A; the inserted block always has a graph entry, even
/// with no references; and a graph in which every edge already runs both ways
/// stays that way.
pub proof fn lemma_insert_block_symmetric(d: DatabaseView, b: BlockView, l: LanguageConfigView)
    ensures
        spec_insert_block(d, b, l).graph.contains_key(b.info.name),
        forall|i: int|
            0 <= i < b.content.len() ==> match #[trigger] b.content[i] {
                BlockContentView::Link(t) => spec_insert_block(d, b, l).graph.contains_key(
                    b.info.name,
                ) && spec_insert_block(d, b, l).graph[b.info.name].contains(t) && spec_insert_block(
                    d,
                    b,
                    l,
                ).graph.contains_key(t) && spec_insert_block(d, b, l).graph[t].contains(
                    b.info.name,
                ),
                BlockContentView::Embed(t) => spec_insert_block(d, b, l).graph.contains_key(
                    b.info.name,
                ) && spec_insert_block(d, b, l).graph[b.info.name].contains(t) && spec_insert_block(
                    d,
                    b,
                    l,
                ).graph.contains_key(t) && spec_insert_block(d, b, l).graph[t].contains(
                    b.info.name,
                ),
                _ => true,
            },
        graph_symmetric(d.graph) ==> graph_symmetric(spec_insert_block(d, b, l).graph),
{
    lemma_ensure_node_props(d.graph, b.info.name);
    lemma_add_edges_props(
        spec_ensure_node(d.graph, b.info.name),
        b.info.name,
        spec_targets(b.content),
    );
    assert forall|i: int| 0 <= i < b.content.len() implies match #[trigger] b.content[i] {
        BlockContentView::Link(t) => spec_insert_block(d, b, l).graph.contains_key(b.info.name)
            && spec_insert_block(d, b, l).graph[b.info.name].contains(t) && spec_insert_block(
            d,
            b,
            l,
        ).graph.contains_key(t) && spec_insert_block(d, b, l).graph[t].contains(b.info.name),
        BlockContentView::Embed(t) => spec_insert_block(d, b, l).graph.contains_key(b.info.name)
            && spec_insert_block(d, b, l).graph[b.info.name].contains(t) && spec_insert_block(
            d,
            b,
            l,
        ).graph.contains_key(t) && spec_insert_block(d, b, l).graph[t].contains(b.info.name),
        _ => true,
    } by {
        lemma_targets_contains(b.content, i);
    }
}

/// Recording references that are all already present changes nothing.
proof fn lemma_add_edges_noop(
    g: Map<Seq<char>, Seq<Seq<char>>>,
    name: Seq<char>,
    targets: Seq<Seq<char>>,
)
    requires
        forall|t: Seq<char>|
            #[trigger] targets.contains(t) ==> g.contains_key(name) && g[name].contains(t)
                && g.contains_key(t) && g[t].contains(name),
    ensures
        spec_add_edges(g, name, targets) == g,
    decreases targets.len(),
{
    if targets.len() > 0 {
        let dl = targets.drop_last();
        let last = targets.last();
        assert forall|t: Seq<char>| #[trigger] dl.contains(t) implies g.contains_key(name)
            && g[name].contains(t) && g.contains_key(t) && g[t].contains(name) by {
            let i = choose|i: int| 0 <= i < dl.len() && dl[i] == t;
            assert(targets[i] == t);
            assert(targets.contains(t));
        }
        lemma_add_edges_noop(g, name, dl);
        assert(targets.contains(last)) by {
            assert(targets[targets.len() - 1] == last);
        }
        assert(spec_add_edge(g, name, last) == g);
        assert(spec_add_edge(g, last, name) == g);
    }
}

/// Idempotent insertion: inserting the same block under the same language
/// twice leaves the block table, the reference graph and the language
/// binding exactly as after the first insertion.
pub proof fn lemma_insert_block_idempotent(d: DatabaseView, b: BlockView, l: LanguageConfigView)
    ensures
        spec_insert_block(spec_insert_block(d, b, l), b, l) == spec_insert_block(d, b, l),
{
    let d1 = spec_insert_block(d, b, l);
    let d2 = spec_insert_block(d1, b, l);
    assert(d1.blocks.insert(b.info.name, b) =~= d1.blocks);
    assert(d1.langs.insert(b.info.name, l) =~= d1.langs);
    lemma_ensure_node_props(d.graph, b.info.name);
    lemma_add_edges_props(
        spec_ensure_node(d.graph, b.info.name),
        b.info.name,
        spec_targets(b.content),
    );
    assert(d1.graph.contains_key(b.info.name));
    assert(spec_ensure_node(d1.graph, b.info.name) == d1.graph);
    lemma_add_edges_noop(d1.graph, b.info.name, spec_targets(b.content));
    assert(d2 =~= d1);
}
} // verus!

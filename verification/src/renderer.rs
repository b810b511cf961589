//! The render resolver. Rendering a block converts each content item to an
//! HTML fragment — markdown through the markdown collaborator, code wrapped
//! in a fenced code block tagged with the block's bound language, links as
//! hyperlinks against the base URL, and embeds by rendering the target block
//! recursively — concatenates the fragments in document order, hands the
//! result to the template collaborator, and caches what comes back. A cache
//! hit is returned as is, a name already being resolved on the active call
//! path fails rather than recursing forever, and nothing is cached for a
//! block whose resolution failed.

use vstd::prelude::*;
use vstd::string::StringExecFns;

use crate::common::AnubisError;
use crate::common::BlockContentView;
use crate::common::clone_strings;
use crate::common::contains_string;
use crate::db::AnubisDatabase;
use crate::db::DatabaseView;
use crate::table::lemma_map_of_dom_len;

verus! {

/// The collaborators a render leans on: a markdown-to-HTML converter and a
/// template engine. The host picks the implementations; the resolver's own
/// guarantees hold whatever these calls return.
pub trait AnubisRendererInterface {
    /// Converts markdown text to HTML.
    fn markdown_to_html(&self, markdown: &str) -> String;

    /// Renders the named template around a block's assembled HTML, given the
    /// block's neighbors in the reference graph; fails with a message when a
    /// template variable cannot be bound.
    fn apply_template(&self, template_name: &str, html: &str, neighbors: &Vec<String>) -> Result<
        String,
        String,
    >;
}

/// A minimal set of collaborators: markdown is handed through unchanged and
/// the template is the block's HTML itself.
pub struct AnubisRenderer {}

impl AnubisRendererInterface for AnubisRenderer {
    fn markdown_to_html(&self, markdown: &str) -> String {
        markdown.to_owned()
    }

    fn apply_template(&self, template_name: &str, html: &str, neighbors: &Vec<String>) -> Result<
        String,
        String,
    > {
        Ok(html.to_owned())
    }
}

/// The hyperlink fragment for a link item: an anchor whose `href` is the base
/// URL followed by the target name, and whose text is the target name.
pub open spec fn spec_link_html(base_url: Seq<char>, target: Seq<char>) -> Seq<char> {
    ("<a href=\"")@ + base_url + target + ("\">")@ + target + ("</a>")@
}

/// Builds the hyperlink fragment for a link item, per [`spec_link_html`].
pub fn link_html(base_url: &str, target: &str) -> (r: String)
    ensures
        r@ == spec_link_html(base_url@, target@),
{
    let mut r = String::new();
    r.append("<a href=\"");
    r.append(base_url);
    r.append(target);
    r.append("\">");
    r.append(target);
    r.append("</a>");
    proof {
        assert(r@ =~= spec_link_html(base_url@, target@));
    }
    r
}

/// A code item wrapped as a fenced code block tagged with the language.
pub open spec fn spec_code_fence(language_tag: Seq<char>, code_text: Seq<char>) -> Seq<char> {
    ("```")@ + language_tag + ("\n")@ + code_text + ("\n```")@
}

/// Wraps a code item as a fenced code block, per [`spec_code_fence`].
pub fn code_fence(language_tag: &str, code_text: &str) -> (r: String)
    ensures
        r@ == spec_code_fence(language_tag@, code_text@),
{
    let mut r = String::new();
    r.append("```");
    r.append(language_tag);
    r.append("\n");
    r.append(code_text);
    r.append("\n```");
    proof {
        assert(r@ =~= spec_code_fence(language_tag@, code_text@));
    }
    r
}

/// Rendered fragments joined in document order.
pub open spec fn spec_concat(frags: Seq<Seq<char>>) -> Seq<char>
    decreases frags.len(),
{
    if frags.len() == 0 {
        Seq::empty()
    } else {
        spec_concat(frags.drop_last()) + frags.last()
    }
}

/// Joins rendered fragments into one HTML string, in document order.
pub fn assemble(frags: &Vec<String>) -> (r: String)
    ensures
        r@ == spec_concat(frags.deep_view()),
{
    let mut r = String::new();
    let mut i: usize = 0;
    while i < frags.len()
        invariant
            i <= frags@.len(),
            r@ == spec_concat(frags.deep_view().take(i as int)),
        decreases frags@.len() - i,
    {
        r.append(frags[i].as_str());
        proof {
            assert(frags.deep_view().take(i + 1).drop_last() =~= frags.deep_view().take(i as int));
            assert(frags.deep_view().take(i + 1).last() == frags.deep_view()[i as int]);
        }
        i += 1;
    }
    proof {
        assert(frags.deep_view().take(frags.deep_view().len() as int) =~= frags.deep_view());
    }
    r
}

/// Whether a content item is an embed.
pub open spec fn is_embed(c: BlockContentView) -> bool {
    c is Embed
}

/// The target of the first embed among a block's content items, if any.
pub open spec fn first_embed(content: Seq<BlockContentView>) -> Option<Seq<char>>
    decreases content.len(),
{
    if content.len() == 0 {
        None
    } else {
        match content[0] {
            BlockContentView::Embed(t) => Some(t),
            _ => first_embed(content.drop_first()),
        }
    }
}

/// An embed at `i` with no embed before it is the first embed.
proof fn lemma_first_embed_at(content: Seq<BlockContentView>, i: int)
    requires
        0 <= i < content.len(),
        is_embed(content[i]),
        forall|j: int| 0 <= j < i ==> !is_embed(content[j]),
    ensures
        content[i] matches BlockContentView::Embed(t) && first_embed(content) == Some(t),
    decreases i,
{
    if i > 0 {
        lemma_first_embed_at(content.drop_first(), i - 1);
        assert(content.drop_first()[i - 1] == content[i]);
        assert forall|j: int| 0 <= j < i - 1 implies !is_embed(content.drop_first()[j]) by {
            assert(content.drop_first()[j] == content[j + 1]);
        }
        assert(!is_embed(content[0]));
    }
}

/// Content without embeds has no first embed.
proof fn lemma_first_embed_none(content: Seq<BlockContentView>)
    requires
        forall|j: int| 0 <= j < content.len() ==> !is_embed(content[j]),
    ensures
        first_embed(content) is None,
    decreases content.len(),
{
    if content.len() > 0 {
        assert forall|j: int| 0 <= j < content.len() - 1 implies !is_embed(
            content.drop_first()[j],
        ) by {
            assert(content.drop_first()[j] == content[j + 1]);
        }
        lemma_first_embed_none(content.drop_first());
    }
}

/// A block's entry is complete: the block itself, its language binding and
/// its graph entry are all present.
pub open spec fn render_entry_present(d: DatabaseView, name: Seq<char>) -> bool {
    &&& d.blocks.contains_key(name)
    &&& d.langs.contains_key(name)
    &&& d.graph.contains_key(name)
}

/// Resolving `name` runs straight into the active call path: its block's
/// first embed targets an uncached name that is already being resolved
/// (`path` plus `name` itself).
pub open spec fn embed_blocked(d: DatabaseView, path: Seq<Seq<char>>, name: Seq<char>) -> bool {
    &&& render_entry_present(d, name)
    &&& match first_embed(d.blocks[name].content) {
        Some(t) => !d.htmls.contains_key(t) && path.push(name).contains(t),
        None => false,
    }
}

/// Resolving `name` runs into the call path after one step: its block's
/// first embed targets a fresh name whose own first embed closes the cycle.
pub open spec fn embed_blocked_two(d: DatabaseView, path: Seq<Seq<char>>, name: Seq<char>) -> bool {
    &&& render_entry_present(d, name)
    &&& match first_embed(d.blocks[name].content) {
        Some(t) => !d.htmls.contains_key(t) && !path.push(name).contains(t) && embed_blocked(
            d,
            path.push(name),
            t,
        ),
        None => false,
    }
}

/// A duplicate-free sequence of keys of a finite set is no longer than the
/// set.
proof fn lemma_path_bound(path: Seq<Seq<char>>, dom: Set<Seq<char>>)
    requires
        path.no_duplicates(),
        forall|k: Seq<char>| path.contains(k) ==> dom.contains(k),
        dom.finite(),
    ensures
        path.len() <= dom.len(),
{
    path.unique_seq_to_set();
    assert(path.to_set().subset_of(dom));
    vstd::set_lib::lemma_len_subset(path.to_set(), dom);
}

impl AnubisDatabase {
    /// Renders one block with an explicit resolution path. See [`Self::render`]
    /// for the contract; `visited` holds the names on the active call path.
    fn render_inner<R: AnubisRendererInterface>(
        &mut self,
        name: &str,
        base_url: &str,
        renderer: &R,
        visited: &mut Vec<String>,
    ) -> (r: Result<String, AnubisError>)
        requires
            old(self).wf(),
            old(visited).deep_view().no_duplicates(),
            forall|k: Seq<char>|
                #[trigger] old(visited).deep_view().contains(k) ==> old(self)@.blocks.contains_key(k),
        ensures
            final(self).wf(),
            final(self)@.blocks == old(self)@.blocks,
            final(self)@.graph == old(self)@.graph,
            final(self)@.langs == old(self)@.langs,
            final(visited)@ == old(visited)@,
            forall|k: Seq<char>|
                #[trigger] old(self)@.htmls.contains_key(k) ==> final(self)@.htmls.contains_key(k)
                    && final(self)@.htmls[k] == old(self)@.htmls[k],
            forall|k: Seq<char>|
                #[trigger] old(visited).deep_view().contains(k) ==> (final(self)@.htmls.contains_key(k) <==> old(self)@.htmls.contains_key(k)),
            old(self)@.htmls.contains_key(name@) ==> (r matches Ok(h) && h@
                == old(self)@.htmls[name@]) && final(self)@.htmls == old(self)@.htmls,
            r matches Ok(h) ==> final(self)@.htmls.contains_key(name@) && final(self)@.htmls[name@] == h@,
            r is Err ==> (final(self)@.htmls.contains_key(name@) <==> old(self)@.htmls.contains_key(name@)),
            forall|k: Seq<char>|
                #[trigger] final(self)@.htmls.contains_key(k) ==> old(self)@.htmls.contains_key(k)
                    || render_entry_present(old(self)@, k),
            r matches Err(e) ==> (e matches AnubisError::BlockNotFoundError(m)
                ==> !old(self)@.blocks.contains_key(m@) && !old(self)@.htmls.contains_key(m@)),
            r matches Err(e) ==> (e matches AnubisError::ConfigError(m)
                ==> old(self)@.blocks.contains_key(m@) && !old(self)@.langs.contains_key(m@)
                    && !old(self)@.htmls.contains_key(m@)),
            r matches Err(e) ==> (e matches AnubisError::ConnectionsNotFound(m)
                ==> old(self)@.blocks.contains_key(m@) && old(self)@.langs.contains_key(m@)
                    && !old(self)@.graph.contains_key(m@) && !old(self)@.htmls.contains_key(m@)),
            !old(self)@.htmls.contains_key(name@) && old(visited).deep_view().contains(name@)
                ==> (r matches Err(e) && e matches AnubisError::RecursiveTemplateError(_)) && final(self)@.htmls == old(self)@.htmls,
            !old(self)@.htmls.contains_key(name@) && !old(visited).deep_view().contains(name@)
                && !old(self)@.blocks.contains_key(name@) ==> (r matches Err(e)
                && e matches AnubisError::BlockNotFoundError(_)),
            !old(self)@.htmls.contains_key(name@) && !old(visited).deep_view().contains(name@)
                && old(self)@.blocks.contains_key(name@) && !old(self)@.langs.contains_key(name@)
                ==> (r matches Err(e) && e matches AnubisError::ConfigError(_)),
            !old(self)@.htmls.contains_key(name@) && !old(visited).deep_view().contains(name@)
                && old(self)@.blocks.contains_key(name@) && old(self)@.langs.contains_key(name@)
                && !old(self)@.graph.contains_key(name@) ==> (r matches Err(e)
                && e matches AnubisError::ConnectionsNotFound(_)),
            !old(self)@.htmls.contains_key(name@) && !old(visited).deep_view().contains(name@)
                && embed_blocked(old(self)@, old(visited).deep_view(), name@) ==> (r matches Err(e)
                && e matches AnubisError::RecursiveTemplateError(_)) && final(self)@.htmls == old(self)@.htmls,
            !old(self)@.htmls.contains_key(name@) && !old(visited).deep_view().contains(name@)
                && embed_blocked_two(old(self)@, old(visited).deep_view(), name@) ==> (r matches Err(e) && e matches AnubisError::RecursiveTemplateError(_)) && final(self)@.htmls == old(self)@.htmls,
        decreases old(self)@.blocks.dom().len() - old(visited)@.len(),
    {
        let ghost path = old(visited).deep_view();
        if let Some(h) = self.get_html(name) {
            return Ok(h.clone());
        }
        if contains_string(visited, name) {
            return Err(AnubisError::RecursiveTemplateError(name.to_owned()));
        }
        let block = match self.get_block(name) {
            None => {
                return Err(AnubisError::BlockNotFoundError(name.to_owned()));
            },
            Some(b) => b.clone(),
        };
        let lang = match self.get_lang(name) {
            None => {
                return Err(AnubisError::ConfigError(name.to_owned()));
            },
            Some(l) => l.clone(),
        };
        let neighbors = match self.get_connections(name) {
            None => {
                return Err(AnubisError::ConnectionsNotFound(name.to_owned()));
            },
            Some(v) => clone_strings(v),
        };
        visited.push(name.to_owned());
        let ghost path2 = path.push(name@);
        proof {
            assert(visited.deep_view() =~= path2);
            assert(visited@.drop_last() =~= old(visited)@);
        }
        let mut frags: Vec<String> = Vec::new();
        let n = block.content.len();
        let mut i: usize = 0;
        while i < n
            invariant
                self.wf(),
                n == block.content@.len(),
                i <= n,
                frags@.len() == i as int,
                forall|j: int|
                    0 <= j < i ==> match #[trigger] block@.content[j] {
                        BlockContentView::Link(t) => frags.deep_view()[j] == spec_link_html(
                            base_url@,
                            t,
                        ),
                        BlockContentView::Embed(t) => self@.htmls.contains_key(t)
                            && frags.deep_view()[j] == self@.htmls[t],
                        _ => true,
                    },
                forall|k: Seq<char>|
                    #[trigger] self@.htmls.contains_key(k) ==> old(self)@.htmls.contains_key(k)
                        || render_entry_present(old(self)@, k),
                self@.blocks == old(self)@.blocks,
                self@.graph == old(self)@.graph,
                self@.langs == old(self)@.langs,
                visited.deep_view() == path2,
                visited@.len() == path2.len(),
                visited@.len() == path.len() + 1,
                visited@.drop_last() == old(visited)@,
                path == old(visited).deep_view(),
                path2 == path.push(name@),
                path.no_duplicates(),
                forall|k: Seq<char>|
                    #[trigger] path.contains(k) ==> old(self)@.blocks.contains_key(k),
                !path.contains(name@),
                !old(self)@.htmls.contains_key(name@),
                old(self)@.blocks.contains_key(name@),
                old(self)@.langs.contains_key(name@),
                old(self)@.graph.contains_key(name@),
                block@ == old(self)@.blocks[name@],
                forall|k: Seq<char>|
                    #[trigger] old(self)@.htmls.contains_key(k) ==> self@.htmls.contains_key(k)
                        && self@.htmls[k] == old(self)@.htmls[k],
                forall|k: Seq<char>|
                    #[trigger] path2.contains(k) ==> (self@.htmls.contains_key(k) <==> old(self)@.htmls.contains_key(k)),
                (forall|j: int| 0 <= j < i ==> !is_embed(block@.content[j])) ==> self@.htmls == old(self)@.htmls,
                first_embed(block@.content) matches Some(t0) ==> ((forall|j: int|
                    0 <= j < i ==> !is_embed(block@.content[j])) || !(!old(self)@.htmls.contains_key(t0) && path2.contains(t0))),
                first_embed(block@.content) matches Some(t0) ==> ((forall|j: int|
                    0 <= j < i ==> !is_embed(block@.content[j])) || !(!old(self)@.htmls.contains_key(t0) && !path2.contains(t0) && embed_blocked(
                    old(self)@,
                    path2,
                    t0,
                ))),
            decreases n - i,
        {
            match &block.content[i] {
                crate::common::BlockContent::Markdown(m) => {
                    let frag = renderer.markdown_to_html(m.as_str());
                    frags.push(frag);
                },
                crate::common::BlockContent::Code(c) => {
                    let fenced = code_fence(lang.language_tag.as_str(), c.as_str());
                    let frag = renderer.markdown_to_html(fenced.as_str());
                    frags.push(frag);
                },
                crate::common::BlockContent::Link(t) => {
                    let frag = link_html(base_url, t.as_str());
                    frags.push(frag);
                },
                crate::common::BlockContent::Embed(t) => {
                    let ghost pre_call = self@;
                    proof {
                        lemma_map_of_dom_len(self.block_db.pairs@);
                        assert forall|k: Seq<char>| path2.contains(k) implies self@.blocks.contains_key(k) by {
                            let idx = choose|idx: int|
                                0 <= idx < path2.len() && path2[idx] == k;
                            if idx < path.len() {
                                assert(path[idx] == k);
                                assert(path.contains(k));
                            } else {
                                assert(k == name@);
                            }
                        }
                        assert(path2.no_duplicates()) by {
                            assert forall|a: int, b: int|
                                0 <= a < path2.len() && 0 <= b < path2.len() && a != b implies path2[a]
                                != path2[b] by {
                                if a < path.len() && b < path.len() {
                                    assert(path[a] == path2[a] && path[b] == path2[b]);
                                } else if b == path.len() {
                                    if path2[a] == name@ {
                                        assert(path[a] == name@);
                                        assert(path.contains(name@));
                                    }
                                } else {
                                    if path2[b] == name@ {
                                        assert(path[b] == name@);
                                        assert(path.contains(name@));
                                    }
                                }
                            }
                        }
                        lemma_path_bound(path2, self@.blocks.dom());
                    }
                    let sub = self.render_inner(t.as_str(), base_url, renderer, visited);
                    proof {
                        assert(path2[path.len() as int] == name@);
                        assert(path2.contains(name@));
                        assert forall|k: Seq<char>| old(self)@.htmls.contains_key(k) implies self@.htmls.contains_key(k) && self@.htmls[k] == old(self)@.htmls[k] by {
                            assert(pre_call.htmls.contains_key(k) && pre_call.htmls[k] == old(self)@.htmls[k]);
                        }
                        assert forall|k: Seq<char>| path2.contains(k) implies (
                        self@.htmls.contains_key(k) <==> old(self)@.htmls.contains_key(k)) by {
                            assert(pre_call.htmls.contains_key(k) <==> old(self)@.htmls.contains_key(k));
                        }
                        assert(block@.content[i as int] == BlockContentView::Embed(t@));
                    }
                    match sub {
                        Ok(frag) => {
                            proof {
                                assert forall|k: Seq<char>| #[trigger] pre_call.htmls.contains_key(
                                    k,
                                ) implies self@.htmls.contains_key(k) && self@.htmls[k]
                                    == pre_call.htmls[k] by {}
                                assert forall|k: Seq<char>| #[trigger] self@.htmls.contains_key(
                                    k,
                                ) implies old(self)@.htmls.contains_key(k) || render_entry_present(
                                    old(self)@,
                                    k,
                                ) by {
                                    if !pre_call.htmls.contains_key(k) {
                                        assert(render_entry_present(pre_call, k));
                                    }
                                }
                                if forall|j: int| 0 <= j < i ==> !is_embed(block@.content[j]) {
                                    lemma_first_embed_at(block@.content, i as int);
                                    assert(pre_call.htmls == old(self)@.htmls);
                                    assert(pre_call =~= old(self)@);
                                    assert(!(!pre_call.htmls.contains_key(t@)
                                        && path2.contains(t@)));
                                    assert(!(!pre_call.htmls.contains_key(t@) && !path2.contains(
                                        t@,
                                    ) && embed_blocked(pre_call, path2, t@)));
                                }
                            }
                            frags.push(frag);
                        },
                        Err(e) => {
                            proof {
                                assert(!self@.htmls.contains_key(name@));
                                assert forall|k: Seq<char>| #[trigger] path.contains(k) implies (
                                self@.htmls.contains_key(k) <==> old(self)@.htmls.contains_key(
                                    k,
                                )) by {
                                    let idx = choose|idx: int|
                                        0 <= idx < path.len() && path[idx] == k;
                                    assert(path2[idx] == k);
                                    assert(path2.contains(k));
                                }
                                assert forall|k: Seq<char>| #[trigger] self@.htmls.contains_key(
                                    k,
                                ) implies old(self)@.htmls.contains_key(k) || render_entry_present(
                                    old(self)@,
                                    k,
                                ) by {
                                    if !pre_call.htmls.contains_key(k) {
                                        assert(render_entry_present(pre_call, k));
                                    }
                                }
                                if embed_blocked(old(self)@, path, name@) {
                                    assert(forall|j: int|
                                        0 <= j < i ==> !is_embed(block@.content[j]));
                                    lemma_first_embed_at(block@.content, i as int);
                                    assert(pre_call.htmls == old(self)@.htmls);
                                    assert(e matches AnubisError::RecursiveTemplateError(_));
                                    assert(self@.htmls == old(self)@.htmls);
                                }
                                if embed_blocked_two(old(self)@, path, name@) {
                                    assert(forall|j: int|
                                        0 <= j < i ==> !is_embed(block@.content[j]));
                                    lemma_first_embed_at(block@.content, i as int);
                                    assert(pre_call.htmls == old(self)@.htmls);
                                    assert(pre_call =~= old(self)@);
                                    assert(embed_blocked(pre_call, path2, t@));
                                    assert(e matches AnubisError::RecursiveTemplateError(_));
                                    assert(self@.htmls == old(self)@.htmls);
                                }
                            }
                            visited.pop();
                            proof {
                                assert(visited@ =~= old(visited)@);
                            }
                            return Err(e);
                        },
                    }
                },
            }
            i += 1;
        }
        proof {
            if first_embed(block@.content) is Some {
                if forall|j: int| 0 <= j < n ==> !is_embed(block@.content[j]) {
                    lemma_first_embed_none(block@.content);
                }
            }
        }
        let html = assemble(&frags);
        let out = match renderer.apply_template(
            block.info.template_name.as_str(),
            html.as_str(),
            &neighbors,
        ) {
            Ok(o) => o,
            Err(msg) => {
                visited.pop();
                proof {
                    assert(visited@ =~= old(visited)@);
                    assert(path2[path.len() as int] == name@);
                    assert(path2.contains(name@));
                    assert(!self@.htmls.contains_key(name@));
                    assert forall|k: Seq<char>| #[trigger] path.contains(k) implies (
                    self@.htmls.contains_key(k) <==> old(self)@.htmls.contains_key(k)) by {
                        let idx = choose|idx: int| 0 <= idx < path.len() && path[idx] == k;
                        assert(path2[idx] == k);
                        assert(path2.contains(k));
                    }
                }
                return Err(AnubisError::ContextError(msg));
            },
        };
        visited.pop();
        proof {
            assert(visited@ =~= old(visited)@);
        }
        let ghost pre_insert = self@;
        self.insert_html(name.to_owned(), out.clone());
        proof {
            assert(!old(self)@.htmls.contains_key(name@));
            assert forall|k: Seq<char>| old(self)@.htmls.contains_key(k) implies self@.htmls.contains_key(k) && self@.htmls[k] == old(self)@.htmls[k] by {
                assert(pre_insert.htmls.contains_key(k) && pre_insert.htmls[k] == old(self)@.htmls[k]);
                assert(k != name@);
            }
            assert forall|k: Seq<char>| path.contains(k) implies (self@.htmls.contains_key(k)
                <==> old(self)@.htmls.contains_key(k)) by {
                let idx = choose|idx: int| 0 <= idx < path.len() && path[idx] == k;
                assert(path2[idx] == k);
                assert(path2.contains(k));
                assert(k != name@);
                assert(pre_insert.htmls.contains_key(k) <==> old(self)@.htmls.contains_key(k));
            }
            assert forall|k: Seq<char>| #[trigger] self@.htmls.contains_key(k) implies old(self)@.htmls.contains_key(k) || render_entry_present(old(self)@, k) by {
                if k != name@ {
                    assert(pre_insert.htmls.contains_key(k));
                } else {
                    assert(render_entry_present(old(self)@, name@));
                }
            }
        }
        Ok(out)
    }

    /// Renders the named block to HTML. A cached rendering is returned
    /// unchanged with the store untouched; otherwise each content item
    /// becomes a fragment (markdown and fenced code through the markdown
    /// collaborator, links as hyperlinks against `base_url`, embeds by
    /// rendering the target block), the fragments are concatenated in
    /// document order, handed to the template collaborator, and the result is
    /// cached under `name` and returned.
    ///
    /// The contract states exactly when each error is owed, in both
    /// directions: a missing block fails with `BlockNotFoundError`, a missing
    /// language binding with `ConfigError`, a missing graph entry with
    /// `ConnectionsNotFound` — and each of those errors names, in the message
    /// it carries, a block whose entry really is missing (a resolution fails
    /// on the first broken entry it reaches, which may be an embedded block's
    /// rather than `name`'s own). A resolution that runs back into itself
    /// through one or two embeds fails with `RecursiveTemplateError` and
    /// leaves the cache untouched. A failed render caches nothing under
    /// `name`, cached entries of other names are never changed, and a name
    /// only ever enters the cache if its block, language binding and graph
    /// entry all exist.
    pub fn render<R: AnubisRendererInterface>(
        &mut self,
        name: &str,
        base_url: &str,
        renderer: &R,
    ) -> (r: Result<String, AnubisError>)
        requires
            old(self).wf(),
        ensures
            final(self).wf(),
            final(self)@.blocks == old(self)@.blocks,
            final(self)@.graph == old(self)@.graph,
            final(self)@.langs == old(self)@.langs,
            forall|k: Seq<char>|
                #[trigger] old(self)@.htmls.contains_key(k) ==> final(self)@.htmls.contains_key(k)
                    && final(self)@.htmls[k] == old(self)@.htmls[k],
            old(self)@.htmls.contains_key(name@) ==> (r matches Ok(h) && h@
                == old(self)@.htmls[name@]) && final(self)@.htmls == old(self)@.htmls,
            r matches Ok(h) ==> final(self)@.htmls.contains_key(name@) && final(self)@.htmls[name@] == h@,
            r is Err ==> !final(self)@.htmls.contains_key(name@) && !old(self)@.htmls.contains_key(name@),
            forall|k: Seq<char>|
                #[trigger] final(self)@.htmls.contains_key(k) ==> old(self)@.htmls.contains_key(k)
                    || render_entry_present(old(self)@, k),
            r matches Err(e) ==> (e matches AnubisError::BlockNotFoundError(m)
                ==> !old(self)@.blocks.contains_key(m@) && !old(self)@.htmls.contains_key(m@)),
            r matches Err(e) ==> (e matches AnubisError::ConfigError(m)
                ==> old(self)@.blocks.contains_key(m@) && !old(self)@.langs.contains_key(m@)
                    && !old(self)@.htmls.contains_key(m@)),
            r matches Err(e) ==> (e matches AnubisError::ConnectionsNotFound(m)
                ==> old(self)@.blocks.contains_key(m@) && old(self)@.langs.contains_key(m@)
                    && !old(self)@.graph.contains_key(m@) && !old(self)@.htmls.contains_key(m@)),
            !old(self)@.htmls.contains_key(name@) && !old(self)@.blocks.contains_key(name@) ==> (
            r matches Err(e) && e matches AnubisError::BlockNotFoundError(_)),
            !old(self)@.htmls.contains_key(name@) && old(self)@.blocks.contains_key(name@) && !old(self)@.langs.contains_key(name@) ==> (r matches Err(e)
                && e matches AnubisError::ConfigError(_)),
            !old(self)@.htmls.contains_key(name@) && old(self)@.blocks.contains_key(name@) && old(self)@.langs.contains_key(name@) && !old(self)@.graph.contains_key(name@) ==> (
            r matches Err(e) && e matches AnubisError::ConnectionsNotFound(_)),
            !old(self)@.htmls.contains_key(name@) && embed_blocked(old(self)@, Seq::empty(), name@)
                ==> (r matches Err(e) && e matches AnubisError::RecursiveTemplateError(_)) && final(self)@.htmls == old(self)@.htmls,
            !old(self)@.htmls.contains_key(name@) && embed_blocked_two(
                old(self)@,
                Seq::empty(),
                name@,
            ) ==> (r matches Err(e) && e matches AnubisError::RecursiveTemplateError(_)) && final(self)@.htmls == old(self)@.htmls,
    {
        let mut visited: Vec<String> = Vec::new();
        proof {
            assert(visited.deep_view() =~= Seq::<Seq<char>>::empty());
        }
        let r = self.render_inner(name, base_url, renderer, &mut visited);
        proof {
            assert(!Seq::<Seq<char>>::empty().contains(name@));
        }
        r
    }
}

} // verus!

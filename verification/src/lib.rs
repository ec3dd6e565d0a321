//! A DOM-tree representation of XML documents, with querying by CSS
//! selectors ("tag", "#id", `[attr=value]`, descendant and direct-child
//! combinators).
//!
//! A [`Document`] is built once from a complete input and is immutable
//! thereafter.  Every element carries a traversal index assigned during
//! construction; queries use it to keep results in document order and free
//! of duplicates.

use vstd::prelude::*;
use vstd::string::StringExecFns;

pub mod tree;
pub mod selector;
pub mod document;
pub mod laws;

pub use crate::document::{Document, DocumentError, ParseEvent};
pub use crate::selector::{CompoundSelector, MatchType, Scope, Selector, UnexpectedTokenError};

use crate::selector::{compounds_view, spec_parse, CompoundModel};
use crate::tree::{
    attrs_map, compound_matches, dedup, descendants, descendants_of, expand, expand_one, filtered,
    lemma_attrs_map_absent, lemma_attrs_map_found, lemma_descendants_take_len,
    lemma_descendants_take_succ, lemma_run_query_push, first_match, query_result, run_query,
    simple_matches,
    stage, subtree, Node,
};

verus! {

/// A single element in the DOM tree.
#[derive(Debug)]
pub struct Element {
    node_index: usize,
    tag_name: String,
    children: Vec<Element>,
    attributes: Vec<(String, String)>,
    text: String,
}

/// Errors which can be returned when performing a select operation.
#[derive(Clone, Copy, Debug, PartialEq, Eq, Structural)]
pub enum SelectError {
    /// Returned when the selector could not be parsed successfully.
    ParseError(UnexpectedTokenError),
    /// Returned when there were no matches for the selector.
    NoMatchError,
}

/// The model of a sequence of element references.
pub open spec fn views(s: Seq<&Element>) -> Seq<Node> {
    s.map_values(|e: &Element| e@)
}

/// The model of the name/value pairs of an attribute list.
pub open spec fn pairs_view(pairs: Seq<(String, String)>) -> Seq<(Seq<char>, Seq<char>)> {
    pairs.map_values(|p: (String, String)| (p.0@, p.1@))
}

impl View for Element {
    type V = Node;

    closed spec fn view(&self) -> Node
        decreases self,
    {
        Node {
            index: self.node_index as int,
            tag: self.tag_name@,
            attrs: attrs_map(pairs_view(self.attributes@)),
            text: self.text@,
            children: elements_view(self.children@),
        }
    }
}

/// The models of a sequence of elements, in order.
pub open spec fn elements_view(es: Seq<Element>) -> Seq<Node>
    decreases es,
{
    if es.len() == 0 {
        Seq::empty()
    } else {
        elements_view(es.drop_last()).push(es.last()@)
    }
}

/// The model of each element of a sequence, in order.
pub proof fn lemma_elements_view(es: Seq<Element>)
    ensures
        elements_view(es).len() == es.len(),
        forall|i: int| 0 <= i < es.len() ==> elements_view(es)[i] == es[i]@,
    decreases es.len(),
{
    if es.len() > 0 {
        lemma_elements_view(es.drop_last());
        assert(elements_view(es) == elements_view(es.drop_last()).push(es.last()@));
        assert(elements_view(es).len() == es.len());
        assert forall|i: int| 0 <= i < es.len() implies elements_view(es)[i] == es[i]@ by {
            if i < es.len() - 1 {
                assert(elements_view(es)[i] == elements_view(es.drop_last())[i]);
                assert(es.drop_last()[i] == es[i]);
            } else {
                assert(elements_view(es)[i] == es.last()@);
            }
        }
    }
}

/// Pushes the subtree of `e`, in depth-first document order, onto `out`.
fn push_subtree<'a>(e: &'a Element, out: &mut Vec<&'a Element>)
    ensures
        views(final(out)@) == views(old(out)@) + subtree(e@),
    decreases *e,
{
    proof {
        lemma_elements_view(e.children@);
    }
    let ghost entry = views(out@);
    proof {
        assert(views(out@.push(e)) =~= views(out@).push(e@));
        assert(entry.push(e@) =~= entry + seq![e@] + descendants_of(
            elements_view(e.children@).take(0),
        ));
    }
    out.push(e);
    let mut i: usize = 0;
    while i < e.children.len()
        invariant
            i <= e.children.len(),
            views(out@) == entry + seq![e@] + descendants_of(
                elements_view(e.children@).take(i as int),
            ),
        decreases e.children.len() - i,
    {
        proof {
            lemma_elements_view(e.children@);
            lemma_descendants_take_succ(elements_view(e.children@), i as int);
        }
        push_subtree(&e.children[i], out);
        i = i + 1;
    }
    proof {
        assert(elements_view(e.children@).take(e.children@.len() as int) =~= elements_view(
            e.children@,
        ));
        assert(entry + seq![e@] + descendants_of(elements_view(e.children@)) =~= entry + subtree(
            e@,
        ));
    }
}

impl Element {
    /// The name of the element's tag.
    pub fn tag_name(&self) -> (r: &str)
        ensures
            r@ == self@.tag,
    {
        self.tag_name.as_str()
    }

    /// The element's direct children, in document order.
    pub fn children_iter<'a>(&'a self) -> (r: Vec<&'a Element>)
        ensures
            views(r@) == self@.children,
    {
        proof {
            lemma_elements_view(self.children@);
        }
        let mut r: Vec<&'a Element> = Vec::new();
        let mut i: usize = 0;
        while i < self.children.len()
            invariant
                i <= self.children.len(),
                views(r@) == self@.children.take(i as int),
            decreases self.children.len() - i,
        {
            proof {
                lemma_elements_view(self.children@);
                assert(views(r@.push(&self.children[i as int])) =~= views(r@).push(
                    self.children@[i as int]@,
                ));
                assert(self@.children.take(i as int).push(self@.children[i as int])
                    =~= self@.children.take(i as int + 1));
            }
            r.push(&self.children[i]);
            i = i + 1;
        }
        proof {
            assert(self@.children.take(self.children@.len() as int) =~= self@.children);
        }
        r
    }

    /// All the element's proper descendants, in depth-first document order.
    pub fn children_deep_iter<'a>(&'a self) -> (r: Vec<&'a Element>)
        ensures
            views(r@) == descendants(self@),
    {
        proof {
            lemma_elements_view(self.children@);
        }
        let mut out: Vec<&'a Element> = Vec::new();
        let mut j: usize = 0;
        proof {
            assert(views(out@) =~= descendants_of(elements_view(self.children@).take(0)));
        }
        while j < self.children.len()
            invariant
                j <= self.children.len(),
                views(out@) == descendants_of(elements_view(self.children@).take(j as int)),
            decreases self.children.len() - j,
        {
            proof {
                lemma_elements_view(self.children@);
                lemma_descendants_take_succ(elements_view(self.children@), j as int);
            }
            push_subtree(&self.children[j], &mut out);
            j = j + 1;
        }
        proof {
            assert(elements_view(self.children@).take(self.children@.len() as int)
                =~= elements_view(self.children@));
        }
        out
    }

    /// The size of the DOM subtree, the element itself included.
    pub fn subtree_size(&self) -> (r: usize)
        requires
            subtree(self@).len() <= usize::MAX,
        ensures
            r == subtree(self@).len(),
        decreases *self,
    {
        proof {
            lemma_elements_view(self.children@);
        }
        let mut total: usize = 1;
        let mut i: usize = 0;
        proof {
            assert(descendants_of(self@.children.take(0)) =~= Seq::<Node>::empty());
        }
        while i < self.children.len()
            invariant
                i <= self.children.len(),
                subtree(self@).len() <= usize::MAX,
                total == 1 + descendants_of(self@.children.take(i as int)).len(),
            decreases self.children.len() - i,
        {
            proof {
                lemma_elements_view(self.children@);
                lemma_descendants_take_succ(self@.children, i as int);
                lemma_descendants_take_len(self@.children, i as int + 1);
            }
            let s = self.children[i].subtree_size();
            total = total + s;
            i = i + 1;
        }
        proof {
            assert(self@.children.take(self.children@.len() as int) =~= self@.children);
        }
        total
    }

    /// The value of the named attribute, if the element carries it.
    pub fn attr(&self, attr_name: &str) -> (r: Option<&String>)
        ensures
            match r {
                Some(v) => self@.attrs.contains_key(attr_name@) && v@ == self@.attrs[attr_name@],
                None => !self@.attrs.contains_key(attr_name@),
            },
    {
        let name = attr_name.to_owned();
        let mut i: usize = self.attributes.len();
        while i > 0
            invariant
                i <= self.attributes.len(),
                name@ == attr_name@,
                forall|l: int|
                    i <= l < self.attributes@.len() ==> (#[trigger] pairs_view(
                        self.attributes@,
                    )[l]).0 != attr_name@,
            decreases i,
        {
            i = i - 1;
            if self.attributes[i].0 == name {
                proof {
                    lemma_attrs_map_found(pairs_view(self.attributes@), i as int);
                }
                return Some(&self.attributes[i].1);
            }
        }
        proof {
            lemma_attrs_map_absent(pairs_view(self.attributes@), attr_name@);
        }
        None
    }

    /// The text contained within the element.
    pub fn text(&self) -> (r: &String)
        ensures
            r@ == self@.text,
    {
        &self.text
    }

    /// True if the element matches every part of the compound selector.
    pub fn matches(&self, compound_selector: &CompoundSelector) -> (r: bool)
        ensures
            r == compound_matches(self@, compound_selector@),
    {
        let parts = &compound_selector.parts;
        let mut i: usize = 0;
        while i < parts.len()
            invariant
                i <= parts.len(),
                parts == &compound_selector.parts,
                forall|k: int|
                    0 <= k < i ==> simple_matches(self@, #[trigger] compound_selector@.parts[k]),
            decreases parts.len() - i,
        {
            let part_matches = match &parts[i] {
                Selector::TagName(name) => self.tag_name == *name,
                Selector::Id(id) => match self.attr("id") {
                    Some(v) => *v == *id,
                    None => false,
                },
                Selector::Attribute(name, _match_type, value) => match self.attr(name.as_str()) {
                    Some(v) => *v == *value,
                    None => false,
                },
            };
            if !part_matches {
                proof {
                    assert(!simple_matches(self@, compound_selector@.parts[i as int]));
                }
                return false;
            }
            i = i + 1;
        }
        true
    }

    /// The traversal index assigned to the element during construction.
    pub fn node_index(&self) -> (r: usize)
        ensures
            r == self@.index,
    {
        self.node_index
    }

    /// A freshly opened element: no children, no text yet.
    pub(crate) fn new_leaf(node_index: usize, tag_name: String, attributes: Vec<(String, String)>)
        -> (r: Element)
        ensures
            r@ == (Node {
                index: node_index as int,
                tag: tag_name@,
                attrs: attrs_map(pairs_view(attributes@)),
                text: Seq::<char>::empty(),
                children: Seq::<Node>::empty(),
            }),
    {
        let r = Element {
            node_index,
            tag_name,
            children: Vec::new(),
            attributes,
            text: String::new(),
        };
        proof {
            assert(elements_view(r.children@) =~= Seq::<Node>::empty());
        }
        r
    }

    /// Appends a closed child element, the last of this element's children.
    pub(crate) fn push_child(&mut self, child: Element)
        ensures
            final(self)@ == (Node {
                index: old(self)@.index,
                tag: old(self)@.tag,
                attrs: old(self)@.attrs,
                text: old(self)@.text,
                children: old(self)@.children.push(child@),
            }),
    {
        proof {
            assert(self.children@.push(child).drop_last() =~= self.children@);
            assert(elements_view(self.children@.push(child)) == elements_view(
                self.children@,
            ).push(child@));
        }
        self.children.push(child);
    }

    /// Appends character data to the element's text.
    pub(crate) fn append_text(&mut self, more: &str)
        ensures
            final(self)@ == (Node {
                index: old(self)@.index,
                tag: old(self)@.tag,
                attrs: old(self)@.attrs,
                text: old(self)@.text + more@,
                children: old(self)@.children,
            }),
    {
        self.text.append(more);
    }

    /// The synthetic root wrapped around the document's real root element.
    pub(crate) fn root_with(child: Element) -> (r: Element)
        ensures
            r@ == crate::tree::root_node(child@),
    {
        let ghost child_node = child@;
        let mut children: Vec<Element> = Vec::new();
        children.push(child);
        proof {
            assert(children@.drop_last() =~= Seq::<Element>::empty());
            assert(elements_view(children@.drop_last()) =~= Seq::<Node>::empty());
            assert(elements_view(children@) =~= seq![child_node]);
            assert(pairs_view(Seq::<(String, String)>::empty()) =~= Seq::<
                (Seq<char>, Seq<char>),
            >::empty());
            assert(attrs_map(pairs_view(Seq::<(String, String)>::empty())) =~= Map::<
                Seq<char>,
                Seq<char>,
            >::empty());
        }
        Element {
            node_index: 0,
            tag_name: "[root]".to_owned(),
            children,
            attributes: Vec::new(),
            text: String::new(),
        }
    }

    /// True if the element's tag name reads `tag`.
    pub(crate) fn has_tag(&self, tag: &String) -> (r: bool)
        ensures
            r == (self@.tag == tag@),
    {
        self.tag_name == *tag
    }

    /// Searches the element's subtree for elements matching the given CSS
    /// selector: one staged traversal per compound selector, each stage
    /// expanding by the stage's scope, filtering by its parts, and dropping
    /// repeats by the traversal-index watermark.
    pub fn select_all<'a>(&'a self, selector: &str) -> (r: Result<Vec<&'a Element>, SelectError>)
        ensures
            match r {
                Ok(v) => spec_parse(selector@) is Ok && views(v@) == query_result(
                    self@,
                    spec_parse(selector@)->Ok_0,
                ),
                Err(e) => match e {
                    SelectError::ParseError(t) => spec_parse(selector@) == Err::<
                        Seq<CompoundModel>,
                        char,
                    >(t.0),
                    SelectError::NoMatchError => false,
                },
            },
    {
        let compound_selectors = match CompoundSelector::parse(selector) {
            Ok(cs) => cs,
            Err(e) => { return Err(SelectError::ParseError(e)) },
        };
        let ghost css = compounds_view(compound_selectors@);
        let mut current: Vec<&'a Element> = Vec::new();
        current.push(self);
        proof {
            assert(views(current@) =~= seq![self@]);
            assert(views(current@) == run_query(seq![self@], css.take(0)));
        }
        let mut si: usize = 0;
        while si < compound_selectors.len()
            invariant
                si <= compound_selectors.len(),
                css == compounds_view(compound_selectors@),
                spec_parse(selector@) == Ok::<_, char>(css),
                views(current@) == run_query(seq![self@], css.take(si as int)),
            decreases compound_selectors.len() - si,
        {
            let cs = &compound_selectors[si];
            let ghost prev = views(current@);

            let mut expanded: Vec<&'a Element> = Vec::new();
            let mut j: usize = 0;
            proof {
                assert(views(expanded@) =~= expand(prev.take(0), cs@.scope));
            }
            while j < current.len()
                invariant
                    j <= current.len(),
                    prev == views(current@),
                    cs == &compound_selectors@[si as int],
                    0 <= si < compound_selectors@.len(),
                    views(expanded@) == expand(prev.take(j as int), cs@.scope),
                decreases current.len() - j,
            {
                let e = current[j];
                let mut add: Vec<&'a Element> = match cs.scope {
                    Scope::DirectChild => e.children_iter(),
                    Scope::IndirectChild => e.children_deep_iter(),
                };
                proof {
                    assert(views(add@) == expand_one(e@, cs@.scope));
                    assert(views(expanded@ + add@) =~= views(expanded@) + views(add@));
                    assert(prev.take(j as int + 1).drop_last() =~= prev.take(j as int));
                    assert(prev.take(j as int + 1).last() == prev[j as int]);
                }
                expanded.append(&mut add);
                j = j + 1;
            }
            proof {
                assert(prev.take(current@.len() as int) =~= prev);
            }

            let mut matched: Vec<&'a Element> = Vec::new();
            let ghost evs = views(expanded@);
            let mut j2: usize = 0;
            proof {
                assert(views(matched@) =~= filtered(evs.take(0), cs@));
            }
            while j2 < expanded.len()
                invariant
                    j2 <= expanded.len(),
                    evs == views(expanded@),
                    cs == &compound_selectors@[si as int],
                    0 <= si < compound_selectors@.len(),
                    views(matched@) == filtered(evs.take(j2 as int), cs@),
                decreases expanded.len() - j2,
            {
                let e = expanded[j2];
                proof {
                    assert(evs.take(j2 as int + 1).drop_last() =~= evs.take(j2 as int));
                    assert(evs.take(j2 as int + 1).last() == evs[j2 as int]);
                }
                if e.matches(cs) {
                    proof {
                        assert(views(matched@.push(e)) =~= views(matched@).push(e@));
                    }
                    matched.push(e);
                }
                j2 = j2 + 1;
            }
            proof {
                assert(evs.take(expanded@.len() as int) =~= evs);
            }

            let mut unique: Vec<&'a Element> = Vec::new();
            let ghost mvs = views(matched@);
            let mut latest: Option<usize> = None;
            let mut j3: usize = 0;
            proof {
                assert(mvs.skip(0) =~= mvs);
                assert(views(unique@) =~= Seq::<Node>::empty());
                assert(views(unique@) + dedup(mvs, -1) =~= dedup(mvs, -1));
            }
            while j3 < matched.len()
                invariant
                    j3 <= matched.len(),
                    mvs == views(matched@),
                    dedup(mvs, -1) == views(unique@) + dedup(
                        mvs.skip(j3 as int),
                        match latest {
                            None => -1int,
                            Some(l) => l as int,
                        },
                    ),
                decreases matched.len() - j3,
            {
                let e = matched[j3];
                let ghost w = match latest {
                    None => -1int,
                    Some(l) => l as int,
                };
                proof {
                    assert(mvs.skip(j3 as int)[0] == mvs[j3 as int]);
                    assert(mvs.skip(j3 as int).skip(1) =~= mvs.skip(j3 as int + 1));
                }
                let emit = match latest {
                    None => true,
                    Some(l) => e.node_index() > l,
                };
                if emit {
                    proof {
                        assert(dedup(mvs.skip(j3 as int), w) == seq![mvs[j3 as int]] + dedup(
                            mvs.skip(j3 as int + 1),
                            mvs[j3 as int].index,
                        ));
                        assert(views(unique@.push(e)) =~= views(unique@).push(e@));
                        assert(views(unique@).push(e@) + dedup(
                            mvs.skip(j3 as int + 1),
                            mvs[j3 as int].index,
                        ) =~= views(unique@) + (seq![mvs[j3 as int]] + dedup(
                            mvs.skip(j3 as int + 1),
                            mvs[j3 as int].index,
                        )));
                    }
                    unique.push(e);
                    latest = Some(e.node_index());
                }
                j3 = j3 + 1;
            }
            proof {
                assert(mvs.skip(matched@.len() as int) =~= Seq::<Node>::empty());
                assert(views(unique@) + Seq::<Node>::empty() =~= views(unique@));
                assert(views(unique@) == stage(prev, cs@));
                lemma_run_query_push(seq![self@], css.take(si as int), css[si as int]);
                assert(css.take(si as int).push(css[si as int]) =~= css.take(si as int + 1));
            }
            current = unique;
            si = si + 1;
        }
        proof {
            assert(css.take(compound_selectors@.len() as int) =~= css);
        }
        Ok(current)
    }

    /// Just like `select_all` but only returns the first match; a valid
    /// selector without matches is the `NoMatchError`.
    pub fn select<'a>(&'a self, selector: &str) -> (r: Result<&'a Element, SelectError>)
        ensures
            match r {
                Ok(e) => spec_parse(selector@) is Ok && first_match(
                    self@,
                    spec_parse(selector@)->Ok_0,
                ) == Some(e@),
                Err(e) => match e {
                    SelectError::ParseError(t) => spec_parse(selector@) == Err::<
                        Seq<CompoundModel>,
                        char,
                    >(t.0),
                    SelectError::NoMatchError => spec_parse(selector@) is Ok && first_match(
                        self@,
                        spec_parse(selector@)->Ok_0,
                    ) is None,
                },
            },
    {
        match self.select_all(selector) {
            Ok(v) => {
                if v.len() == 0 {
                    Err(SelectError::NoMatchError)
                } else {
                    Ok(v[0])
                }
            },
            Err(e) => Err(e),
        }
    }
}


} // verus!

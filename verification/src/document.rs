//! Building a [`Document`] from the structural events of an XML input.
//!
//! The external tokenizer turns the input text into a stream of events:
//! element start (tag and attributes), element end, character data, a
//! tokenizer error, or something of no structural interest.  The builder
//! consumes those events with a stack of open elements, assigns every
//! element a traversal index as it is opened, and wraps the finished real
//! root in a synthetic root of index 0.  [`spec_build`] is the
//! specification of that pass; [`Document::from_events`] is proved to
//! return exactly what it describes.

use vstd::prelude::*;

use crate::selector::{spec_parse, CompoundModel};
use crate::tree::{
    attrs_map, descendants_of, first_match, preordered, query_result, root_node, subtree, Node,
};
use crate::{elements_view, lemma_elements_view, pairs_view, views, Element, SelectError};

verus! {

/// The various errors that can happen when creating a document.
#[derive(Clone, Debug)]
pub enum DocumentError {
    /// The input source could not be opened.
    UnableToOpenFile(String),
    /// The input was not a well-formed document; the message names the
    /// fault.
    ParseError(String),
}

/// One structural event of an XML input, as plain values.
#[derive(Debug)]
pub enum ParseEvent {
    /// An element opens, with its tag name and its attributes in document
    /// order.
    ElementStart {
        /// The element's tag name.
        tag: String,
        /// The element's attributes, in document order.
        attributes: Vec<(String, String)>,
    },
    /// An element closes.
    ElementEnd {
        /// The tag name of the closing element.
        tag: String,
    },
    /// Character data within the innermost open element.
    Text {
        /// The characters, verbatim.
        content: String,
    },
    /// The tokenizer failed; no further event is meaningful.
    Fault {
        /// The tokenizer's message, verbatim.
        message: String,
    },
    /// An event of no structural interest (a comment, a processing
    /// instruction, the document start or end).
    Other,
}

/// Model of one structural event.
pub enum EventModel {
    /// An element opens: tag name and attribute pairs.
    Start(Seq<char>, Seq<(Seq<char>, Seq<char>)>),
    /// An element closes: its tag name.
    End(Seq<char>),
    /// Character data.
    Text(Seq<char>),
    /// The tokenizer failed with this message.
    Fault(Seq<char>),
    /// An event of no structural interest.
    Other,
}

impl View for ParseEvent {
    type V = EventModel;

    open spec fn view(&self) -> EventModel {
        match self {
            ParseEvent::ElementStart { tag, attributes } => EventModel::Start(
                tag@,
                pairs_view(attributes@),
            ),
            ParseEvent::ElementEnd { tag } => EventModel::End(tag@),
            ParseEvent::Text { content } => EventModel::Text(content@),
            ParseEvent::Fault { message } => EventModel::Fault(message@),
            ParseEvent::Other => EventModel::Other,
        }
    }
}

/// The models of a sequence of events, in order.
pub open spec fn events_view(es: Seq<ParseEvent>) -> Seq<EventModel> {
    es.map_values(|e: ParseEvent| e@)
}

/// The structural events that the external tokenizer reads out of a
/// complete in-memory document; they depend on its text alone.
pub uninterp spec fn xml_events(s: Seq<char>) -> Seq<EventModel>;

/// Relies on `xml::reader::EventReader` of the `xml` crate: pulls every
/// event of the document out of the reader, one of this module's events
/// for each, in order.  The reader is a pure function of the input text,
/// and its event iterator ends after the document end or the first error.
#[verifier::external_body]
fn tokenize(source: &str) -> (r: Vec<ParseEvent>)
    ensures
        events_view(r@) == xml_events(source@),
{
    let reader = xml::reader::EventReader::from_str(source);
    reader.into_iter().map(|event| match event {
        Ok(xml::reader::XmlEvent::StartElement { name, attributes, .. }) =>
            ParseEvent::ElementStart {
                tag: name.local_name,
                attributes: attributes.into_iter().map(|a| (a.name.local_name, a.value)).collect(),
            },
        Ok(xml::reader::XmlEvent::EndElement { name }) =>
            ParseEvent::ElementEnd { tag: name.local_name },
        Ok(xml::reader::XmlEvent::Characters(content)) => ParseEvent::Text { content },
        Ok(xml::reader::XmlEvent::Whitespace(content)) => ParseEvent::Text { content },
        Err(error) => ParseEvent::Fault { message: error.to_string() },
        Ok(_) => ParseEvent::Other,
    }).collect()
}

/// The stack after the element on top of it closes: it is appended as the
/// last child of the element below it.
pub open spec fn append_child(stack: Seq<Node>) -> Seq<Node> {
    let child = stack.last();
    let parent = stack[stack.len() - 2];
    stack.drop_last().drop_last().push(
        Node {
            index: parent.index,
            tag: parent.tag,
            attrs: parent.attrs,
            text: parent.text,
            children: parent.children.push(child),
        },
    )
}

/// The stack after character data arrives: appended to the text of the
/// innermost open element.
pub open spec fn append_text(stack: Seq<Node>, t: Seq<char>) -> Seq<Node> {
    let top = stack.last();
    stack.drop_last().push(
        Node {
            index: top.index,
            tag: top.tag,
            attrs: top.attrs,
            text: top.text + t,
            children: top.children,
        },
    )
}

/// What building from `events[i..]` yields, with `stack` the open elements
/// (innermost last) and `next` the next traversal index: the synthetic
/// root once the outermost element closes, or the message of the fault
/// that ended construction.
pub open spec fn build_from(events: Seq<EventModel>, i: int, stack: Seq<Node>, next: int) -> Result<
    Node,
    Seq<char>,
>
    decreases events.len() - i,
{
    if !(0 <= i < events.len()) {
        Err("the input ended before the document root was closed"@)
    } else {
        match events[i] {
            EventModel::Start(tag, attrs) => {
                if next >= usize::MAX as int {
                    Err("too many elements"@)
                } else {
                    build_from(
                        events,
                        i + 1,
                        stack.push(
                            Node {
                                index: next,
                                tag: tag,
                                attrs: attrs_map(attrs),
                                text: Seq::empty(),
                                children: Seq::empty(),
                            },
                        ),
                        next + 1,
                    )
                }
            },
            EventModel::End(tag) => {
                if stack.len() == 0 {
                    Err("closing tag without an open element"@)
                } else if stack.last().tag != tag {
                    Err("mismatched closing tag"@)
                } else if stack.len() == 1 {
                    Ok(root_node(stack.last()))
                } else {
                    build_from(events, i + 1, append_child(stack), next)
                }
            },
            EventModel::Text(t) => {
                if stack.len() == 0 {
                    build_from(events, i + 1, stack, next)
                } else {
                    build_from(events, i + 1, append_text(stack, t), next)
                }
            },
            EventModel::Fault(m) => Err(m),
            EventModel::Other => build_from(events, i + 1, stack, next),
        }
    }
}

/// What building a document from an event stream yields: the stack starts
/// empty and traversal indices start at 1, index 0 being reserved for the
/// synthetic root.
pub open spec fn spec_build(events: Seq<EventModel>) -> Result<Node, Seq<char>> {
    build_from(events, 0, Seq::empty(), 1)
}

/// The invariant of the builder's stack: every open element's subtree is
/// pre-order indexed, the subtrees of the open elements cover the indices
/// handed out so far contiguously in stack order starting at 1, and `next`
/// is the first index not handed out yet.
pub open spec fn stack_ok(stack: Seq<Node>, next: int) -> bool {
    &&& forall|k: int| 0 <= k < stack.len() ==> preordered(#[trigger] stack[k])
    &&& forall|k: int|
        0 <= k < stack.len() - 1 ==> (#[trigger] stack[k]).index + subtree(stack[k]).len()
            == stack[k + 1].index
    &&& stack.len() > 0 ==> stack[0].index == 1
    &&& stack.len() > 0 ==> stack.last().index + subtree(stack.last()).len() == next
    &&& stack.len() == 0 ==> next == 1
}

/// Whatever the events, a build that succeeds returns a pre-order indexed
/// tree: the node at position `k` of the root's subtree carries index `k`.
pub proof fn lemma_build_preordered(events: Seq<EventModel>, i: int, stack: Seq<Node>, next: int)
    requires
        stack_ok(stack, next),
        1 <= next <= usize::MAX,
    ensures
        build_from(events, i, stack, next) matches Ok(root) ==> preordered(root) && root.index
            == 0 && subtree(root).len() <= usize::MAX,
    decreases events.len() - i,
{
    if 0 <= i < events.len() {
        match events[i] {
            EventModel::Start(tag, attrs) => {
                if next < usize::MAX as int {
                    let leaf = Node {
                        index: next,
                        tag: tag,
                        attrs: attrs_map(attrs),
                        text: Seq::empty(),
                        children: Seq::empty(),
                    };
                    assert(descendants_of(leaf.children) =~= Seq::<Node>::empty());
                    assert(subtree(leaf) =~= seq![leaf]);
                    assert(preordered(leaf));
                    let s2 = stack.push(leaf);
                    assert forall|k: int| 0 <= k < s2.len() implies preordered(
                        #[trigger] s2[k],
                    ) by {
                        if k < stack.len() {
                            assert(s2[k] == stack[k]);
                        }
                    }
                    assert forall|k: int|
                        0 <= k < s2.len() - 1 implies (#[trigger] s2[k]).index + subtree(
                        s2[k],
                    ).len() == s2[k + 1].index by {
                        if k < stack.len() - 1 {
                            assert(s2[k] == stack[k]);
                            assert(s2[k + 1] == stack[k + 1]);
                        } else {
                            assert(s2[k] == stack.last());
                            assert(s2[k + 1] == leaf);
                        }
                    }
                    assert(stack_ok(s2, next + 1));
                    lemma_build_preordered(events, i + 1, s2, next + 1);
                }
            },
            EventModel::End(tag) => {
                if stack.len() == 1 && stack.last().tag == tag {
                    let child = stack.last();
                    let root = root_node(child);
                    assert(seq![child].drop_last() =~= Seq::<Node>::empty());
                    assert(seq![child].last() == child);
                    assert(descendants_of(Seq::<Node>::empty()) == Seq::<Node>::empty());
                    assert(descendants_of(seq![child]) == descendants_of(Seq::<Node>::empty())
                        + subtree(child));
                    assert(descendants_of(seq![child]) =~= subtree(child));
                    assert(subtree(root) == seq![root] + subtree(child));
                    assert(child.index == 1);
                    assert forall|k: int| 0 <= k < subtree(root).len() implies (#[trigger] subtree(
                        root,
                    )[k]).index == root.index + k by {
                        if k == 0 {
                            assert(subtree(root)[0] == root);
                        } else {
                            assert(subtree(root)[k] == subtree(child)[k - 1]);
                            assert(subtree(child)[k - 1].index == child.index + (k - 1));
                        }
                    }
                    assert(preordered(root));
                    assert(subtree(root).len() == 1 + subtree(child).len() == next);
                } else if stack.len() >= 2 && stack.last().tag == tag {
                    let child = stack.last();
                    let parent = stack[stack.len() - 2];
                    let parent2 = Node {
                        index: parent.index,
                        tag: parent.tag,
                        attrs: parent.attrs,
                        text: parent.text,
                        children: parent.children.push(child),
                    };
                    let dlen = descendants_of(parent.children).len();
                    assert(parent.children.push(child).drop_last() =~= parent.children);
                    assert(descendants_of(parent.children.push(child)) == descendants_of(
                        parent.children,
                    ) + subtree(child));
                    assert(subtree(parent2) == seq![parent2] + (descendants_of(parent.children)
                        + subtree(child)));
                    assert(subtree(parent) == seq![parent] + descendants_of(parent.children));
                    assert(subtree(parent).len() == 1 + dlen);
                    assert(child.index == parent.index + 1 + dlen);
                    assert forall|k: int| 0 <= k < subtree(parent2).len() implies (
                    #[trigger] subtree(parent2)[k]).index == parent2.index + k by {
                        if k == 0 {
                            assert(subtree(parent2)[0] == parent2);
                        } else if k < 1 + dlen {
                            assert(subtree(parent2)[k] == descendants_of(parent.children)[k - 1]);
                            assert(subtree(parent)[k] == descendants_of(parent.children)[k - 1]);
                            assert(subtree(parent)[k].index == parent.index + k);
                        } else {
                            assert(subtree(parent2)[k] == subtree(child)[k - 1 - dlen]);
                            assert(subtree(child)[k - 1 - dlen].index == child.index + (k - 1
                                - dlen));
                        }
                    }
                    assert(preordered(parent2));
                    assert(subtree(parent2).len() == subtree(parent).len() + subtree(child).len());
                    let s2 = append_child(stack);
                    assert(s2.len() == stack.len() - 1);
                    assert(s2.last() == parent2);
                    assert forall|k: int| 0 <= k < s2.len() implies preordered(
                        #[trigger] s2[k],
                    ) by {
                        if k < s2.len() - 1 {
                            assert(s2[k] == stack[k]);
                        }
                    }
                    assert forall|k: int|
                        0 <= k < s2.len() - 1 implies (#[trigger] s2[k]).index + subtree(
                        s2[k],
                    ).len() == s2[k + 1].index by {
                        assert(s2[k] == stack[k]);
                        if k < s2.len() - 2 {
                            assert(s2[k + 1] == stack[k + 1]);
                        } else {
                            assert(s2[k + 1] == parent2);
                            assert(stack[k].index + subtree(stack[k]).len() == parent.index);
                        }
                    }
                    if s2.len() > 0 {
                        if stack.len() == 2 {
                            assert(s2[0] == parent2);
                            assert(parent2.index == parent.index == stack[0].index);
                        } else {
                            assert(s2[0] == stack[0]);
                        }
                        assert(s2.last().index + subtree(s2.last()).len() == child.index + subtree(
                            child,
                        ).len() == next);
                    }
                    assert(stack_ok(s2, next));
                    lemma_build_preordered(events, i + 1, s2, next);
                }
            },
            EventModel::Text(t) => {
                if stack.len() == 0 {
                    lemma_build_preordered(events, i + 1, stack, next);
                } else {
                    let top = stack.last();
                    let top2 = Node {
                        index: top.index,
                        tag: top.tag,
                        attrs: top.attrs,
                        text: top.text + t,
                        children: top.children,
                    };
                    assert(subtree(top2) == seq![top2] + descendants_of(top.children));
                    assert(subtree(top) == seq![top] + descendants_of(top.children));
                    assert forall|k: int| 0 <= k < subtree(top2).len() implies (#[trigger] subtree(
                        top2,
                    )[k]).index == top2.index + k by {
                        if k == 0 {
                            assert(subtree(top2)[0] == top2);
                        } else {
                            assert(subtree(top2)[k] == descendants_of(top.children)[k - 1]);
                            assert(subtree(top)[k] == descendants_of(top.children)[k - 1]);
                            assert(subtree(top)[k].index == top.index + k);
                        }
                    }
                    assert(preordered(top2));
                    let s2 = append_text(stack, t);
                    assert(s2.len() == stack.len());
                    assert(s2.last() == top2);
                    assert forall|k: int| 0 <= k < s2.len() implies preordered(
                        #[trigger] s2[k],
                    ) by {
                        if k < s2.len() - 1 {
                            assert(s2[k] == stack[k]);
                        }
                    }
                    assert forall|k: int|
                        0 <= k < s2.len() - 1 implies (#[trigger] s2[k]).index + subtree(
                        s2[k],
                    ).len() == s2[k + 1].index by {
                        assert(s2[k] == stack[k]);
                        if k < s2.len() - 2 {
                            assert(s2[k + 1] == stack[k + 1]);
                        } else {
                            assert(s2[k + 1] == top2);
                        }
                    }
                    assert(s2[0].index == stack[0].index);
                    assert(s2.last().index + subtree(s2.last()).len() == next);
                    assert(stack_ok(s2, next));
                    lemma_build_preordered(events, i + 1, s2, next);
                }
            },
            EventModel::Fault(_) => {},
            EventModel::Other => {
                lemma_build_preordered(events, i + 1, stack, next);
            },
        }
    }
}

/// A build that succeeds returns a pre-order indexed tree rooted at the
/// synthetic root of index 0, small enough for its size to be counted.
pub proof fn lemma_spec_build_preordered(events: Seq<EventModel>)
    ensures
        spec_build(events) matches Ok(root) ==> preordered(root) && root.index == 0 && subtree(
            root,
        ).len() <= usize::MAX,
{
    lemma_build_preordered(events, 0, Seq::empty(), 1);
}

/// Clones a list of attribute pairs.
fn clone_pairs(pairs: &Vec<(String, String)>) -> (r: Vec<(String, String)>)
    ensures
        r@ == pairs@,
{
    let mut r: Vec<(String, String)> = Vec::new();
    let mut i: usize = 0;
    while i < pairs.len()
        invariant
            i <= pairs.len(),
            r@ == pairs@.take(i as int),
        decreases pairs.len() - i,
    {
        r.push((pairs[i].0.clone(), pairs[i].1.clone()));
        proof {
            assert(r@ =~= pairs@.take(i as int + 1));
        }
        i = i + 1;
    }
    proof {
        assert(pairs@.take(pairs@.len() as int) =~= pairs@);
    }
    r
}

/// The DOM tree representation of the parsed document: the synthetic root
/// and everything below it.  A document is built once and is immutable
/// thereafter.
#[derive(Debug)]
pub struct Document {
    root: Element,
}

impl View for Document {
    type V = Node;

    closed spec fn view(&self) -> Node {
        self.root@
    }
}

impl Document {
    /// Every document the library hands out carries pre-order traversal
    /// indices rooted at the synthetic root of index 0.
    #[verifier::type_invariant]
    spec fn inv(self) -> bool {
        preordered(self.root@) && self.root@.index == 0 && subtree(self.root@).len() <= usize::MAX
    }
}

impl Document {
    /// Builds the document tree out of the tokenizer's events: elements
    /// open onto a stack and receive increasing traversal indices, an
    /// element that closes becomes the last child of the one below it, and
    /// when the outermost element closes it is wrapped as the single child
    /// of a synthetic root carrying index 0.  A tokenizer fault, a
    /// mismatched or unmatched closing tag, and input that ends with an
    /// element still open are construction failures.
    pub fn from_events(events: &Vec<ParseEvent>) -> (r: Result<Document, DocumentError>)
        ensures
            match r {
                Ok(d) => spec_build(events_view(events@)) == Ok::<Node, Seq<char>>(d@)
                    && preordered(d@) && d@.index == 0,
                Err(e) => match e {
                    DocumentError::ParseError(m) => spec_build(events_view(events@)) == Err::<
                        Node,
                        Seq<char>,
                    >(m@),
                    DocumentError::UnableToOpenFile(_) => false,
                },
            },
    {
        let ghost evs = events_view(events@);
        let mut stack: Vec<Element> = Vec::new();
        let mut next_index: usize = 1;
        let mut i: usize = 0;
        proof {
            assert(elements_view(stack@) =~= Seq::<Node>::empty());
        }
        while i < events.len()
            invariant
                i <= events.len(),
                1 <= next_index <= usize::MAX,
                evs == events_view(events@),
                spec_build(evs) == build_from(
                    evs,
                    i as int,
                    elements_view(stack@),
                    next_index as int,
                ),
            decreases events.len() - i,
        {
            let ghost stack_nodes = elements_view(stack@);
            proof {
                lemma_elements_view(stack@);
            }
            match &events[i] {
                ParseEvent::ElementStart { tag, attributes } => {
                    if next_index == usize::MAX {
                        return Err(DocumentError::ParseError("too many elements".to_owned()));
                    }
                    let element = Element::new_leaf(next_index, tag.clone(), clone_pairs(
                        attributes,
                    ));
                    proof {
                        assert(stack@.push(element).drop_last() =~= stack@);
                        assert(elements_view(stack@.push(element)) == stack_nodes.push(element@));
                    }
                    stack.push(element);
                    next_index = next_index + 1;
                },
                ParseEvent::ElementEnd { tag } => {
                    match stack.pop() {
                        None => {
                            return Err(
                                DocumentError::ParseError(
                                    "closing tag without an open element".to_owned(),
                                ),
                            );
                        },
                        Some(child) => {
                            proof {
                                assert(stack_nodes.last() == child@);
                                assert(elements_view(stack@) == stack_nodes.drop_last());
                            }
                            if !child.has_tag(tag) {
                                return Err(
                                    DocumentError::ParseError("mismatched closing tag".to_owned()),
                                );
                            }
                            match stack.pop() {
                                None => {
                                    let root = Element::root_with(child);
                                    proof {
                                        lemma_spec_build_preordered(evs);
                                    }
                                    return Ok(Document { root });
                                },
                                Some(mut parent) => {
                                    proof {
                                        assert(stack_nodes.drop_last().last() == parent@);
                                        assert(elements_view(stack@) == stack_nodes.drop_last()
                                            .drop_last());
                                    }
                                    parent.push_child(child);
                                    proof {
                                        assert(stack@.push(parent).drop_last() =~= stack@);
                                        assert(elements_view(stack@.push(parent)) == append_child(
                                            stack_nodes,
                                        ));
                                    }
                                    stack.push(parent);
                                },
                            }
                        },
                    }
                },
                ParseEvent::Text { content } => {
                    match stack.pop() {
                        None => {
                            // Character data outside any element is discarded.
                        },
                        Some(mut top) => {
                            proof {
                                assert(stack_nodes.last() == top@);
                                assert(elements_view(stack@) == stack_nodes.drop_last());
                            }
                            top.append_text(content.as_str());
                            proof {
                                assert(stack@.push(top).drop_last() =~= stack@);
                                assert(elements_view(stack@.push(top)) == append_text(
                                    stack_nodes,
                                    content@,
                                ));
                            }
                            stack.push(top);
                        },
                    }
                },
                ParseEvent::Fault { message } => {
                    return Err(DocumentError::ParseError(message.clone()));
                },
                ParseEvent::Other => {},
            }
            i = i + 1;
        }
        Err(DocumentError::ParseError("the input ended before the document root was closed".to_owned()))
    }

    /// Creates a new document from a string.
    pub fn new_from_xml_string(string: &str) -> (r: Result<Document, DocumentError>)
        ensures
            match r {
                Ok(d) => spec_build(xml_events(string@)) == Ok::<Node, Seq<char>>(d@)
                    && preordered(d@) && d@.index == 0,
                Err(e) => match e {
                    DocumentError::ParseError(m) => spec_build(xml_events(string@)) == Err::<
                        Node,
                        Seq<char>,
                    >(m@),
                    DocumentError::UnableToOpenFile(_) => false,
                },
            },
    {
        let events = tokenize(string);
        Document::from_events(&events)
    }

    /// The synthetic root of the document's tree.
    pub fn root(&self) -> (r: &Element)
        ensures
            r@ == self@,
    {
        &self.root
    }

    /// The total number of elements in the document, the synthetic root
    /// excluded.
    pub fn number_of_elements(&self) -> (r: usize)
        ensures
            r + 1 == subtree(self@).len(),
    {
        proof {
            use_type_invariant(&*self);
        }
        self.root.subtree_size() - 1
    }

    /// Searches the document for elements matching the given CSS selector.
    pub fn select_all<'a>(&'a self, selector: &str) -> (r: Result<Vec<&'a Element>, SelectError>)
        ensures
            match r {
                Ok(v) => spec_parse(selector@) is Ok && views(v@) == query_result(
                    self@,
                    spec_parse(selector@)->Ok_0,
                ),
                Err(e) => match e {
                    SelectError::ParseError(t) => spec_parse(selector@) == Err::<
                        Seq<CompoundModel>,
                        char,
                    >(t.0),
                    SelectError::NoMatchError => false,
                },
            },
    {
        self.root.select_all(selector)
    }

    /// Just like `select_all` but only returns the first match.
    pub fn select<'a>(&'a self, selector: &str) -> (r: Result<&'a Element, SelectError>)
        ensures
            match r {
                Ok(e) => spec_parse(selector@) is Ok && first_match(
                    self@,
                    spec_parse(selector@)->Ok_0,
                ) == Some(e@),
                Err(e) => match e {
                    SelectError::ParseError(t) => spec_parse(selector@) == Err::<
                        Seq<CompoundModel>,
                        char,
                    >(t.0),
                    SelectError::NoMatchError => spec_parse(selector@) is Ok && first_match(
                        self@,
                        spec_parse(selector@)->Ok_0,
                    ) is None,
                },
            },
    {
        self.root.select(selector)
    }
}

} // verus!

//! The reader of markup: it tells what node each line stands for, and builds
//! the trees of a text.

use crate::error::{CompileError, ErrorKind, LineError};
use crate::html::content::{
    bare, document_order, document_order_all, lemma_element_view, Content, ContentView,
};
use crate::lexer::{lex, line_views, scan, LineView, Node, Token};
use crate::tree::{
    build_forest, carried, first_misplaced, forest, lemma_forest_document_order,
    lemma_misplaced_is_found, misplaced, models, shapes, sound, walk_all, DocumentOrder, Leveled,
    TreeNode,
};
use crate::util::{camelcase_to_dashed, dashed, is_plain, lemma_dashed_plain};
use crate::vecs::{deep, lemma_deep_view_push, reversed};
use vstd::prelude::*;

verus! {

/// Gathers the tokens of one line.
#[derive(Debug, PartialEq, Eq)]
pub struct LineBuilder {
    pub level: Option<usize>,
    pub nodes: Vec<Node>,
}

/// One line of markup: how far it is indented, and its tokens.
#[derive(Debug, PartialEq, Eq)]
pub struct Line {
    pub level: usize,
    pub nodes: Vec<Node>,
}

impl View for Line {
    type V = LineView;

    open spec fn view(&self) -> LineView {
        LineView { level: self.level, nodes: self.nodes.deep_view() }
    }
}

impl DeepView for Line {
    type V = LineView;

    open spec fn deep_view(&self) -> LineView {
        self.view()
    }
}

impl Default for LineBuilder {
    /// A builder that has no level yet, and no token.
    fn default() -> (builder: Self)
        ensures
            builder.level is None,
            builder.nodes@.len() == 0,
    {
        LineBuilder { level: None, nodes: Vec::new() }
    }
}

impl LineBuilder {
    /// A builder for a line of the given level, with no token yet.
    pub fn new(level: usize) -> (builder: Self)
        ensures
            builder.level == Some(level),
            builder.nodes@.len() == 0,
    {
        LineBuilder { level: Some(level), nodes: Vec::new() }
    }

    /// The line, where the builder has a level.
    pub fn build(self) -> (line: Option<Line>)
        ensures
            match self.level {
                Some(level) => line == Some(Line { level, nodes: self.nodes }),
                None => line is None,
            },
    {
        match self.level {
            Some(level) => Some(Line { level, nodes: self.nodes }),
            None => None,
        }
    }

    /// Puts a token behind those that the builder has.
    pub fn put(&mut self, node: Node)
        ensures
            final(self).level == old(self).level,
            final(self).nodes@ == old(self).nodes@.push(node),
    {
        self.nodes.push(node);
    }
}

/// The name of an attribute as it is rendered: `viewBox` as it is, any other
/// name dashed.
pub open spec fn attribute_name(name: Seq<char>) -> Seq<char> {
    if name == "viewBox"@ {
        name
    } else {
        dashed(name)
    }
}

/// `viewBox` is the one name that is kept; every other name is rendered
/// dashed, so a name without uppercase letters is rendered as it is.
pub proof fn lemma_attribute_name(name: Seq<char>)
    ensures
        name == "viewBox"@ ==> attribute_name(name) == name,
        name != "viewBox"@ ==> attribute_name(name) == dashed(name),
        is_plain(name) ==> attribute_name(name) == name,
{
    if is_plain(name) {
        lemma_dashed_plain(name);
    }
}

/// Where the reading of a line stands.
pub enum Phase {
    /// Nothing is read.
    StandBy,
    /// The node has its name; a class name, an attribute or inline content
    /// may follow.
    HasIdent,
    /// The name of an attribute is read, already as it will be rendered.
    HasPropertyName(Seq<char>),
    /// The name of an attribute and `=` are read.
    NeedPropertyValue(Seq<char>),
    /// `.` is read.
    NeedClassName,
    /// The line is a text, and this is it.
    Done(Seq<char>),
}

/// What is read of a line.
pub struct Draft {
    pub phase: Phase,
    pub tag: Option<Seq<char>>,
    pub class_names: Seq<Seq<char>>,
    pub properties: Seq<(Seq<char>, Seq<char>)>,
    pub contents: Seq<Seq<char>>,
}

/// The text of a token that can be a value: of a literal, its contents; of a
/// group, the group as it was written.
pub open spec fn value_of(token: Token) -> Option<Seq<char>> {
    match token {
        Token::Literal(text) => Some(text),
        Token::Group(text) => Some(text),
        _ => None,
    }
}

/// The draft of a line of which nothing is read.
pub open spec fn blank() -> Draft {
    Draft {
        phase: Phase::StandBy,
        tag: None,
        class_names: Seq::empty(),
        properties: Seq::empty(),
        contents: Seq::empty(),
    }
}

/// One step of the reading: the draft after `token`, or why `token` cannot
/// follow. The first token names the node: a word is the name of the tag, a
/// `.` stands for the tag `div`, a literal or a group makes the line a text;
/// any other punctuation comes before a name and fails as the name is
/// missing. Behind the name, `.` and a word give a class name; a word, `=`
/// and a literal or a group give an attribute; a literal or a group alone is
/// inline content. Nothing follows a text.
pub open spec fn step(draft: Draft, token: Token) -> Result<Draft, ErrorKind> {
    match draft.phase {
        Phase::StandBy => match token {
            Token::Ident(name) => Ok(Draft { phase: Phase::HasIdent, tag: Some(name), ..draft }),
            Token::Punct(c) => if c == '.' {
                Ok(Draft { phase: Phase::NeedClassName, tag: Some("div"@), ..draft })
            } else {
                Err(ErrorKind::MissingElementName)
            },
            Token::Literal(text) => Ok(Draft { phase: Phase::Done(text), ..draft }),
            Token::Group(text) => Ok(Draft { phase: Phase::Done(text), ..draft }),
        },
        Phase::HasIdent => match token {
            Token::Ident(name) => Ok(
                Draft { phase: Phase::HasPropertyName(attribute_name(name)), ..draft },
            ),
            Token::Punct(c) => if c == '.' {
                Ok(Draft { phase: Phase::NeedClassName, ..draft })
            } else {
                Err(ErrorKind::MalformedLine)
            },
            Token::Literal(text) => Ok(Draft { contents: draft.contents.push(text), ..draft }),
            Token::Group(text) => Ok(Draft { contents: draft.contents.push(text), ..draft }),
        },
        Phase::HasPropertyName(name) => if token == Token::Punct('=') {
            Ok(Draft { phase: Phase::NeedPropertyValue(name), ..draft })
        } else {
            Err(ErrorKind::MalformedLine)
        },
        Phase::NeedPropertyValue(name) => match value_of(token) {
            Some(value) => Ok(
                Draft {
                    phase: Phase::HasIdent,
                    properties: draft.properties.push((name, value)),
                    ..draft
                },
            ),
            None => Err(ErrorKind::MalformedLine),
        },
        Phase::NeedClassName => match token {
            Token::Ident(name) => Ok(
                Draft {
                    phase: Phase::HasIdent,
                    class_names: draft.class_names.push(name),
                    ..draft
                },
            ),
            _ => Err(ErrorKind::MalformedLine),
        },
        Phase::Done(_) => Err(ErrorKind::MalformedLine),
    }
}

/// The draft after all of `tokens`, read one by one from a blank draft; or the
/// failure of the first token that cannot follow, with its index.
pub open spec fn run(tokens: Seq<Token>) -> Result<Draft, LineError>
    decreases tokens.len(),
{
    if tokens.len() == 0 {
        Ok(blank())
    } else {
        match run(tokens.drop_last()) {
            Ok(draft) => match step(draft, tokens.last()) {
                Ok(next) => Ok(next),
                Err(kind) => Err(LineError { kind, token: (tokens.len() - 1) as usize }),
            },
            Err(error) => Err(error),
        }
    }
}

/// What a line is, once its `count` tokens are read: a text; a tag with
/// inline content, where there is any; else a tag that may get children. A
/// `.` or the name of an attribute that the line ends with, with or without
/// `=`, is left out. A line that has named no node fails.
pub open spec fn finish(draft: Draft, level: usize, count: nat) -> Result<
    BuilderNodeView,
    LineError,
> {
    match draft.phase {
        Phase::Done(text) => Ok(BuilderNodeView::Text { level, text }),
        _ => match draft.tag {
            Some(tag) => if draft.contents.len() == 0 {
                Ok(
                    BuilderNodeView::Tag {
                        level,
                        tag,
                        class_names: draft.class_names,
                        properties: draft.properties,
                        children: Seq::empty(),
                    },
                )
            } else {
                Ok(
                    BuilderNodeView::InlineTag {
                        level,
                        tag,
                        class_names: draft.class_names,
                        properties: draft.properties,
                        contents: draft.contents,
                    },
                )
            },
            None => Err(LineError { kind: ErrorKind::MissingElementName, token: count as usize }),
        },
    }
}

/// The node that a line of markup stands for, or why it stands for none.
pub open spec fn classify(line: LineView) -> Result<BuilderNodeView, LineError> {
    match run(line.nodes) {
        Ok(draft) => finish(draft, line.level, line.nodes.len()),
        Err(error) => Err(error),
    }
}

/// A failure among the first `k` tokens is the failure of all of them.
proof fn lemma_run_fails(tokens: Seq<Token>, k: int)
    requires
        0 <= k <= tokens.len(),
        run(tokens.take(k)) is Err,
    ensures
        run(tokens) == run(tokens.take(k)),
    decreases tokens.len() - k,
{
    if k < tokens.len() {
        assert(tokens.take(k + 1).drop_last() =~= tokens.take(k));
        lemma_run_fails(tokens, k + 1);
    } else {
        assert(tokens.take(k) =~= tokens);
    }
}

/// Where the reading of a line stands, as the program holds it.
enum State {
    StandBy,
    HasIdent,
    HasPropertyName(String),
    NeedPropertyValue(String),
    NeedClassName,
    Done(String),
}

impl View for State {
    type V = Phase;

    closed spec fn view(&self) -> Phase {
        match self {
            State::StandBy => Phase::StandBy,
            State::HasIdent => Phase::HasIdent,
            State::HasPropertyName(name) => Phase::HasPropertyName(name@),
            State::NeedPropertyValue(name) => Phase::NeedPropertyValue(name@),
            State::NeedClassName => Phase::NeedClassName,
            State::Done(text) => Phase::Done(text@),
        }
    }
}

/// What is read of a line, as the program holds it.
struct Progress {
    state: State,
    tag: Option<String>,
    class_names: Vec<String>,
    properties: Vec<(String, String)>,
    contents: Vec<String>,
}

impl View for Progress {
    type V = Draft;

    closed spec fn view(&self) -> Draft {
        Draft {
            phase: self.state@,
            tag: self.tag.deep_view(),
            class_names: self.class_names.deep_view(),
            properties: self.properties.deep_view(),
            contents: self.contents.deep_view(),
        }
    }
}

/// The text of a token that can be a value.
fn value(token: &Node) -> (text: Option<String>)
    ensures
        text.deep_view() == value_of(token@),
{
    match token {
        Node::Literal(text) => Some(text.clone()),
        Node::Group(text) => Some(text.clone()),
        _ => None,
    }
}

/// Reads one token.
fn advance(progress: Progress, token: &Node) -> (next: Result<Progress, ErrorKind>)
    ensures
        match next {
            Ok(after) => step(progress@, token@) == Ok::<Draft, ErrorKind>(after@),
            Err(kind) => step(progress@, token@) == Err::<Draft, ErrorKind>(kind),
        },
{
    let Progress { state, tag, class_names, properties, contents } = progress;
    let mut class_names = class_names;
    let mut properties = properties;
    let mut contents = contents;
    match state {
        State::StandBy => match token {
            Node::Ident(name) => Ok(
                Progress {
                    state: State::HasIdent,
                    tag: Some(name.clone()),
                    class_names,
                    properties,
                    contents,
                },
            ),
            Node::Punct(c) => if *c == '.' {
                Ok(
                    Progress {
                        state: State::NeedClassName,
                        tag: Some(String::from_str("div")),
                        class_names,
                        properties,
                        contents,
                    },
                )
            } else {
                Err(ErrorKind::MissingElementName)
            },
            Node::Literal(text) => Ok(
                Progress { state: State::Done(text.clone()), tag, class_names, properties, contents },
            ),
            Node::Group(text) => Ok(
                Progress { state: State::Done(text.clone()), tag, class_names, properties, contents },
            ),
        },
        State::HasIdent => match token {
            Node::Ident(name) => Ok(
                Progress {
                    state: State::HasPropertyName(Line::property_name_to_dashed(name.as_str())),
                    tag,
                    class_names,
                    properties,
                    contents,
                },
            ),
            Node::Punct(c) => if *c == '.' {
                Ok(Progress { state: State::NeedClassName, tag, class_names, properties, contents })
            } else {
                Err(ErrorKind::MalformedLine)
            },
            Node::Literal(text) => {
                proof {
                    lemma_deep_view_push(contents@, *text);
                }
                contents.push(text.clone());
                Ok(Progress { state: State::HasIdent, tag, class_names, properties, contents })
            },
            Node::Group(text) => {
                proof {
                    lemma_deep_view_push(contents@, *text);
                }
                contents.push(text.clone());
                Ok(Progress { state: State::HasIdent, tag, class_names, properties, contents })
            },
        },
        State::HasPropertyName(name) => match token {
            Node::Punct(c) => if *c == '=' {
                Ok(
                    Progress {
                        state: State::NeedPropertyValue(name),
                        tag,
                        class_names,
                        properties,
                        contents,
                    },
                )
            } else {
                Err(ErrorKind::MalformedLine)
            },
            _ => Err(ErrorKind::MalformedLine),
        },
        State::NeedPropertyValue(name) => match value(token) {
            Some(text) => {
                proof {
                    lemma_deep_view_push(properties@, (name, text));
                }
                properties.push((name, text));
                Ok(Progress { state: State::HasIdent, tag, class_names, properties, contents })
            },
            None => Err(ErrorKind::MalformedLine),
        },
        State::NeedClassName => match token {
            Node::Ident(name) => {
                proof {
                    lemma_deep_view_push(class_names@, *name);
                }
                class_names.push(name.clone());
                Ok(Progress { state: State::HasIdent, tag, class_names, properties, contents })
            },
            _ => Err(ErrorKind::MalformedLine),
        },
        State::Done(_) => Err(ErrorKind::MalformedLine),
    }
}

impl Line {
    /// Rewrites the name of an attribute as it is rendered: dashed, but for
    /// `viewBox`, which stays.
    pub fn property_name_to_dashed(property_name: &str) -> (res: String)
        ensures
            res@ == attribute_name(property_name@),
    {
        let given = String::from_str(property_name);
        let kept = String::from_str("viewBox");
        if given == kept {
            given
        } else {
            camelcase_to_dashed(property_name)
        }
    }

    /// Reads the line: tells what node it stands for.
    pub fn process(self) -> (node: Result<BuilderNode, LineError>)
        ensures
            match node {
                Ok(found) => classify(self@) == Ok::<BuilderNodeView, LineError>(found@),
                Err(error) => classify(self@) == Err::<BuilderNodeView, LineError>(error),
            },
    {
        let mut progress = Progress {
            state: State::StandBy,
            tag: None,
            class_names: Vec::new(),
            properties: Vec::new(),
            contents: Vec::new(),
        };
        let ghost tokens = self.nodes.deep_view();
        let mut i: usize = 0;
        proof {
            assert(tokens.take(0) =~= Seq::empty());
            assert(progress@.class_names =~= Seq::empty());
            assert(progress@.properties =~= Seq::empty());
            assert(progress@.contents =~= Seq::empty());
        }
        while i < self.nodes.len()
            invariant
                i <= self.nodes.len(),
                tokens == self.nodes.deep_view(),
                run(tokens.take(i as int)) == Ok::<Draft, LineError>(progress@),
            decreases self.nodes.len() - i,
        {
            proof {
                assert(tokens.take(i + 1).drop_last() =~= tokens.take(i as int));
                assert(tokens.take(i + 1).last() == self.nodes[i as int]@);
            }
            match advance(progress, &self.nodes[i]) {
                Ok(next) => {
                    progress = next;
                },
                Err(kind) => {
                    proof {
                        lemma_run_fails(tokens, i + 1);
                    }
                    return Err(LineError { kind, token: i });
                },
            }
            i += 1;
        }
        proof {
            assert(tokens.take(self.nodes.len() as int) =~= tokens);
        }
        let level = self.level;
        let count = self.nodes.len();
        let Progress { state, tag, class_names, properties, contents } = progress;
        match state {
            State::Done(text) => Ok(BuilderNode::Text { level, text }),
            _ => match tag {
                Some(tag) => if contents.len() == 0 {
                    let children: Vec<Content> = Vec::new();
                    proof {
                        assert(children.deep_view() =~= Seq::empty());
                    }
                    Ok(BuilderNode::Tag { level, tag, class_names, properties, children })
                } else {
                    Ok(BuilderNode::InlineTag { level, tag, class_names, properties, contents })
                },
                None => Err(LineError { kind: ErrorKind::MissingElementName, token: count }),
            },
        }
    }
}

/// A line that is read: the node that it stands for, with its level.
#[derive(Debug, PartialEq, Eq)]
pub enum BuilderNode {
    /// A tag with content on its own line. It takes no children.
    InlineTag {
        level: usize,
        tag: String,
        class_names: Vec<String>,
        properties: Vec<(String, String)>,
        contents: Vec<String>,
    },
    /// A tag that takes the lines indented under it as its children.
    Tag {
        level: usize,
        tag: String,
        class_names: Vec<String>,
        properties: Vec<(String, String)>,
        children: Vec<Content>,
    },
    /// A text. It takes no children.
    Text { level: usize, text: String },
}

/// The mathematical model of a `BuilderNode`.
pub enum BuilderNodeView {
    InlineTag {
        level: usize,
        tag: Seq<char>,
        class_names: Seq<Seq<char>>,
        properties: Seq<(Seq<char>, Seq<char>)>,
        contents: Seq<Seq<char>>,
    },
    Tag {
        level: usize,
        tag: Seq<char>,
        class_names: Seq<Seq<char>>,
        properties: Seq<(Seq<char>, Seq<char>)>,
        children: Seq<ContentView>,
    },
    Text { level: usize, text: Seq<char> },
}

impl BuilderNodeView {
    /// How far the line is indented.
    pub open spec fn level(self) -> usize {
        match self {
            BuilderNodeView::InlineTag { level, .. } => level,
            BuilderNodeView::Tag { level, .. } => level,
            BuilderNodeView::Text { level, .. } => level,
        }
    }

    /// Whether the node takes children: only a tag without inline content
    /// does.
    pub open spec fn holds(self) -> bool {
        self is Tag
    }

    /// The node of the markup tree that the line stands for. The inline
    /// content of a tag becomes its contents, each piece a text.
    pub open spec fn element(self) -> ContentView {
        match self {
            BuilderNodeView::InlineTag {
                tag,
                class_names,
                properties,
                contents,
                ..
            } => ContentView::Element {
                name: tag,
                class_names,
                properties,
                contents: Seq::new(contents.len(), |i: int| ContentView::Text(contents[i])),
            },
            BuilderNodeView::Tag {
                tag,
                class_names,
                properties,
                children,
                ..
            } => ContentView::Element { name: tag, class_names, properties, contents: children },
            BuilderNodeView::Text { text, .. } => ContentView::Text(text),
        }
    }

    /// The line as the tree builder sees it.
    pub open spec fn leveled(self) -> Leveled<ContentView> {
        Leveled { level: self.level(), holds: self.holds(), shape: self.element() }
    }
}

impl View for BuilderNode {
    type V = BuilderNodeView;

    open spec fn view(&self) -> BuilderNodeView {
        match self {
            BuilderNode::InlineTag {
                level,
                tag,
                class_names,
                properties,
                contents,
            } => BuilderNodeView::InlineTag {
                level: *level,
                tag: tag@,
                class_names: class_names.deep_view(),
                properties: properties.deep_view(),
                contents: contents.deep_view(),
            },
            BuilderNode::Tag {
                level,
                tag,
                class_names,
                properties,
                children,
            } => BuilderNodeView::Tag {
                level: *level,
                tag: tag@,
                class_names: class_names.deep_view(),
                properties: properties.deep_view(),
                children: children.deep_view(),
            },
            BuilderNode::Text { level, text } => BuilderNodeView::Text { level: *level, text: text@ },
        }
    }
}

impl DeepView for BuilderNode {
    type V = BuilderNodeView;

    open spec fn deep_view(&self) -> BuilderNodeView {
        self.view()
    }
}

/// An element with `children` put behind its contents; a text as it is.
pub open spec fn with_children(shape: ContentView, children: Seq<ContentView>) -> ContentView {
    match shape {
        ContentView::Element { name, class_names, properties, contents } => ContentView::Element {
            name,
            class_names,
            properties,
            contents: contents + children,
        },
        ContentView::Text(_) => shape,
    }
}

impl BuilderNode {
    /// How far the line is indented.
    pub fn level(&self) -> (level: usize)
        ensures
            level == self@.level(),
    {
        match self {
            BuilderNode::InlineTag { level, .. } => *level,
            BuilderNode::Tag { level, .. } => *level,
            BuilderNode::Text { level, .. } => *level,
        }
    }

    /// The node of the markup tree that the line stands for.
    pub fn into_element(self) -> (content: Content)
        ensures
            content@ == self@.element(),
    {
        match self {
            BuilderNode::InlineTag { tag, class_names, properties, contents, .. } => {
                let mut texts: Vec<Content> = Vec::new();
                let mut i: usize = 0;
                while i < contents.len()
                    invariant
                        i <= contents.len(),
                        texts.len() == i,
                        forall|j: int|
                            0 <= j < i ==> (#[trigger] texts@[j])@ == ContentView::Text(
                                contents@[j]@,
                            ),
                    decreases contents.len() - i,
                {
                    texts.push(Content::Text(contents[i].clone()));
                    i += 1;
                }
                let content = Content::Element {
                    name: tag,
                    class_names,
                    properties,
                    contents: texts,
                };
                proof {
                    lemma_element_view(content);
                    assert(content@->contents =~= self@.element()->contents);
                }
                content
            },
            BuilderNode::Tag { tag, class_names, properties, children, .. } => {
                let content = Content::Element {
                    name: tag,
                    class_names,
                    properties,
                    contents: children,
                };
                proof {
                    lemma_element_view(content);
                }
                content
            },
            BuilderNode::Text { text, .. } => Content::Text(text),
        }
    }

    /// Gives a tag its children, in place of those that it has. Any other
    /// node takes none: it is left as it is, and the call fails.
    pub fn set_children(&mut self, new_children: Vec<Content>) -> (done: Result<(), ErrorKind>)
        ensures
            match old(self)@ {
                BuilderNodeView::Tag { level, tag, class_names, properties, .. } => done is Ok
                    && final(self)@ == (BuilderNodeView::Tag {
                    level,
                    tag,
                    class_names,
                    properties,
                    children: new_children.deep_view(),
                }),
                _ => done == Err::<(), ErrorKind>(ErrorKind::StructuralViolation) && *final(self)
                    == *old(self),
            },
    {
        match self {
            BuilderNode::Tag { children, .. } => {
                *children = new_children;
                Ok(())
            },
            _ => Err(ErrorKind::StructuralViolation),
        }
    }
}

impl TreeNode for BuilderNode {
    type Element = Content;

    type Shape = ContentView;

    open spec fn leveled(&self) -> Leveled<ContentView> {
        self@.leveled()
    }

    open spec fn shape_of(element: &Content) -> ContentView {
        element@
    }

    open spec fn graft(shape: ContentView, children: Seq<ContentView>) -> ContentView {
        with_children(shape, children)
    }

    proof fn lemma_graft_nothing(shape: ContentView) {
        if shape is Element {
            assert(shape->contents + Seq::<ContentView>::empty() =~= shape->contents);
        }
    }

    proof fn lemma_graft_twice(
        shape: ContentView,
        first: Seq<ContentView>,
        second: Seq<ContentView>,
    ) {
        if shape is Element {
            assert((shape->contents + first) + second =~= shape->contents + (first + second));
        }
    }

    fn level(&self) -> (level: usize) {
        BuilderNode::level(self)
    }

    fn holds_children(&self) -> (holds: bool) {
        match self {
            BuilderNode::Tag { .. } => true,
            _ => false,
        }
    }

    fn attach(&mut self, children: Vec<Content>) {
        let ghost given = children@;
        let mut children = children;
        let ghost added = children.deep_view();
        match self {
            BuilderNode::Tag { children: held, .. } => {
                let ghost before = held.deep_view();
                held.append(&mut children);
                proof {
                    assert(held.deep_view() =~= before + added);
                }
            },
            _ => {},
        }
        proof {
            assert(Seq::new(given.len(), |i: int| Self::shape_of(&given[i])) =~= added);
        }
    }

    fn into_element(self) -> (element: Content) {
        BuilderNode::into_element(self)
    }
}

impl DocumentOrder for BuilderNode {
    open spec fn roomy(shape: ContentView) -> bool {
        shape is Element
    }

    open spec fn walk(shape: ContentView) -> Seq<ContentView> {
        document_order(shape)
    }

    proof fn lemma_walk_graft(
        shape: ContentView,
        children: Seq<ContentView>,
        child: ContentView,
    ) {
        let held = shape->contents;
        let longer = with_children(shape, children.push(child));
        let shorter = with_children(shape, children);
        let all = (held + children).push(child);
        assert(held + children.push(child) =~= all);
        assert(all.drop_last() =~= held + children);
        assert(document_order_all(all) == document_order_all(held + children) + document_order(
            child,
        ));
        assert(document_order(longer) == seq![bare(longer)] + document_order_all(all));
        assert(document_order(shorter) == seq![bare(shorter)] + document_order_all(
            held + children,
        ));
        assert(bare(longer) == bare(shorter));
        assert(seq![bare(shorter)] + (document_order_all(held + children) + document_order(child))
            =~= (seq![bare(shorter)] + document_order_all(held + children)) + document_order(
            child,
        ));
    }
}

/// The lines of a markup text, ready to be built into trees.
#[derive(Debug, PartialEq, Eq)]
pub struct Parser {
    pub lines: Vec<Line>,
}

impl View for Parser {
    type V = Seq<LineView>;

    open spec fn view(&self) -> Seq<LineView> {
        self.lines.deep_view()
    }
}

/// The lines that are read, blank ones left out, each with the index of its
/// line; or the failure of the first line that stands for no node.
pub open spec fn classify_all(lines: Seq<LineView>) -> Result<
    Seq<(usize, BuilderNodeView)>,
    CompileError,
>
    decreases lines.len(),
{
    if lines.len() == 0 {
        Ok(Seq::empty())
    } else {
        match classify_all(lines.drop_last()) {
            Ok(found) => if lines.last().nodes.len() == 0 {
                Ok(found)
            } else {
                match classify(lines.last()) {
                    Ok(node) => Ok(found.push(((lines.len() - 1) as usize, node))),
                    Err(error) => Err(
                        CompileError::on_line(
                            error,
                            (lines.len() - 1) as usize,
                            lines.last().level,
                        ),
                    ),
                }
            },
            Err(error) => Err(error),
        }
    }
}

/// The lines as the tree builder sees them.
pub open spec fn sprouts(found: Seq<(usize, BuilderNodeView)>) -> Seq<Leveled<ContentView>> {
    Seq::new(found.len(), |i: int| found[i].1.leveled())
}

/// The trees of a markup text. Every line is read first, and the first that
/// stands for no node fails. A text without a node fails as empty. Then the
/// first line that is indented under a node that takes no children fails.
/// Else the trees are those of the lines.
pub open spec fn outcome(lines: Seq<LineView>) -> Result<Seq<ContentView>, CompileError> {
    match classify_all(lines) {
        Ok(found) => if found.len() == 0 {
            Err(CompileError { kind: ErrorKind::EmptyInput, line: 0, level: 0, token: 0 })
        } else {
            match first_misplaced(sprouts(found), 0) {
                Some(i) => Err(
                    CompileError {
                        kind: ErrorKind::StructuralViolation,
                        line: found[i].0,
                        level: found[i].1.level(),
                        token: 0,
                    },
                ),
                None => Ok(forest::<BuilderNode>(sprouts(found))),
            }
        },
        Err(error) => Err(error),
    }
}

/// A failure among the first `k` lines is the failure of all of them.
proof fn lemma_classify_all_fails(lines: Seq<LineView>, k: int)
    requires
        0 <= k <= lines.len(),
        classify_all(lines.take(k)) is Err,
    ensures
        classify_all(lines) == classify_all(lines.take(k)),
    decreases lines.len() - k,
{
    if k < lines.len() {
        assert(lines.take(k + 1).drop_last() =~= lines.take(k));
        lemma_classify_all_fails(lines, k + 1);
    } else {
        assert(lines.take(k) =~= lines);
    }
}

/// The line of the given level that holds the given tokens.
fn gather(level: usize, nodes: Vec<Node>) -> (line: Line)
    ensures
        line@ == (LineView { level, nodes: nodes.deep_view() }),
{
    let ghost all = nodes@;
    let mut pending = reversed(nodes);
    let mut builder = LineBuilder::new(level);
    while pending.len() > 0
        invariant
            builder.level == Some(level),
            builder.nodes.len() + pending.len() == all.len(),
            builder.nodes@ == all.take(builder.nodes.len() as int),
            pending@ == all.reverse().take(pending.len() as int),
        decreases pending.len(),
    {
        let ghost before = builder.nodes@;
        let node = pending.pop().unwrap();
        builder.put(node);
        proof {
            assert(node == all[before.len() as int]);
            assert(builder.nodes@ =~= all.take(builder.nodes.len() as int));
            assert(pending@ =~= all.reverse().take(pending.len() as int));
        }
    }
    proof {
        assert(all.take(all.len() as int) =~= all);
    }
    let line = builder.build().unwrap();
    proof {
        assert(line.nodes.deep_view() =~= nodes.deep_view());
    }
    line
}

impl Parser {
    /// Reads a markup text: cuts it into lines, and each line into tokens.
    pub fn from_str(input: &str) -> (parsed: Result<Parser, CompileError>)
        ensures
            match parsed {
                Ok(parser) => scan(input@) == Ok::<Seq<LineView>, CompileError>(parser@),
                Err(error) => scan(input@) == Err::<Seq<LineView>, CompileError>(error),
            },
    {
        match lex(input) {
            Ok(entries) => {
                let ghost all = entries.deep_view();
                let ghost raw = entries@;
                let mut pending = reversed(entries);
                let mut lines: Vec<Line> = Vec::new();
                proof {
                    assert(lines.deep_view() =~= line_views(all).take(0));
                }
                while pending.len() > 0
                    invariant
                        all == deep(raw),
                        lines.len() + pending.len() == raw.len(),
                        pending@ == raw.reverse().take(pending.len() as int),
                        lines.deep_view() == line_views(all).take(lines.len() as int),
                    decreases pending.len(),
                {
                    let ghost count = lines.len();
                    let entry = pending.pop().unwrap();
                    proof {
                        assert(entry == raw[count as int]);
                        assert(pending@ =~= raw.reverse().take(pending.len() as int));
                    }
                    let line = gather(entry.0, entry.1);
                    proof {
                        lemma_deep_view_push(lines@, line);
                    }
                    lines.push(line);
                    proof {
                        assert(lines.deep_view() =~= line_views(all).take(lines.len() as int));
                    }
                }
                proof {
                    assert(line_views(all).take(raw.len() as int) =~= line_views(all));
                }
                Ok(Parser { lines })
            },
            Err(error) => Err(error),
        }
    }

    /// Builds the trees of the text: reads each line that has tokens, and
    /// puts the nodes together by their indentation.
    pub fn build(self) -> (built: Result<Vec<Content>, CompileError>)
        ensures
            match built {
                Ok(trees) => outcome(self@) == Ok::<Seq<ContentView>, CompileError>(
                    trees.deep_view(),
                ),
                Err(error) => outcome(self@) == Err::<Seq<ContentView>, CompileError>(error),
            },
    {
        let ghost all = self@;
        let ghost raw = self.lines@;
        let total = self.lines.len();
        let mut pending = reversed(self.lines);
        let mut nodes: Vec<BuilderNode> = Vec::new();
        let mut origins: Vec<(usize, usize)> = Vec::new();
        let mut index: usize = 0;
        proof {
            assert(all.take(0) =~= Seq::empty());
            assert(numbered(origins@, nodes@) =~= Seq::empty());
        }
        while pending.len() > 0
            invariant
                all == self@,
                all == deep(raw),
                raw.len() == total,
                index + pending.len() == total,
                pending@ == raw.reverse().take(pending.len() as int),
                nodes.len() == origins.len(),
                classify_all(all.take(index as int)) == Ok::<_, CompileError>(
                    numbered(origins@, nodes@),
                ),
                forall|j: int|
                    0 <= j < nodes.len() ==> (#[trigger] origins@[j]).1 == nodes@[j]@.level(),
            decreases pending.len(),
        {
            let line = pending.pop().unwrap();
            proof {
                assert(line == raw[index as int]);
                assert(pending@ =~= raw.reverse().take(pending.len() as int));
                assert(all.take(index + 1).drop_last() =~= all.take(index as int));
                assert(all.take(index + 1).last() == line@);
            }
            if line.nodes.len() > 0 {
                let level = line.level;
                let ghost before = numbered(origins@, nodes@);
                match line.process() {
                    Ok(node) => {
                        nodes.push(node);
                        origins.push((index, level));
                        proof {
                            assert(numbered(origins@, nodes@) =~= before.push((index, node@)));
                        }
                    },
                    Err(error) => {
                        proof {
                            lemma_classify_all_fails(all, index + 1);
                        }
                        return Err(
                            CompileError { kind: error.kind, line: index, level, token: error.token },
                        );
                    },
                }
            }
            index += 1;
        }
        proof {
            assert(all.take(total as int) =~= all);
            assert(models(nodes@) =~= sprouts(numbered(origins@, nodes@)));
        }
        if nodes.len() == 0 {
            return Err(CompileError { kind: ErrorKind::EmptyInput, line: 0, level: 0, token: 0 });
        }
        match build_forest(nodes) {
            Ok(trees) => {
                proof {
                    assert(trees.deep_view() =~= shapes::<BuilderNode>(trees@));
                }
                Ok(trees)
            },
            Err(i) => Err(
                CompileError {
                    kind: ErrorKind::StructuralViolation,
                    line: origins[i].0,
                    level: origins[i].1,
                    token: 0,
                },
            ),
        }
    }
}

/// The nodes, each with the index of its line.
pub open spec fn numbered(origins: Seq<(usize, usize)>, nodes: Seq<BuilderNode>) -> Seq<
    (usize, BuilderNodeView),
> {
    Seq::new(nodes.len(), |i: int| (origins[i].0, nodes[i]@))
}

/// The walk that the tree builder knows is the document order of markup.
proof fn lemma_walk_all(contents: Seq<ContentView>)
    ensures
        walk_all::<BuilderNode>(contents) == document_order_all(contents),
    decreases contents.len(),
{
    if contents.len() > 0 {
        lemma_walk_all(contents.drop_last());
    }
}

/// The trees of a markup text hold every line that was read, in the order
/// of the lines. Walked in document order, the trees give the node of the
/// first line, then that of the second, and so on, each with the inline
/// content of its line behind it: no line is lost, and none comes before a
/// line that stood before it.
pub proof fn lemma_outcome_keeps_order(lines: Seq<LineView>)
    ensures
        outcome(lines) matches Ok(trees) ==> classify_all(lines) matches Ok(found)
            && document_order_all(trees) == document_order_all(carried(sprouts(found))),
{
    if outcome(lines) is Ok {
        let found = classify_all(lines)->Ok_0;
        let sprigs = sprouts(found);
        assert(sound::<BuilderNode>(sprigs));
        lemma_forest_document_order::<BuilderNode>(sprigs);
        lemma_walk_all(forest::<BuilderNode>(sprigs));
        lemma_walk_all(carried(sprigs));
    }
}

/// A line that is indented under a tag with inline content or a text is never
/// passed over: where every line of a markup text can be read and one of
/// them is misplaced, the build fails as a structural violation, and hands
/// out no tree.
pub proof fn lemma_outcome_structural(lines: Seq<LineView>, i: int)
    requires
        classify_all(lines) matches Ok(found) && misplaced(sprouts(found), i),
    ensures
        outcome(lines) matches Err(error) && error.kind == ErrorKind::StructuralViolation,
{
    let found = classify_all(lines)->Ok_0;
    lemma_misplaced_is_found(sprouts(found), 0, i);
}

} // verus!

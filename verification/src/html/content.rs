//! The markup tree, and how it is written out.

use crate::text::{join, joined};
use vstd::prelude::*;

verus! {

/// A node of a markup tree.
#[derive(Debug, PartialEq, Eq)]
pub enum Content {
    /// A tag with its class names, its attributes and what it holds, each list
    /// in the order in which it was written.
    Element {
        name: String,
        class_names: Vec<String>,
        properties: Vec<(String, String)>,
        contents: Vec<Content>,
    },
    /// Text, which is rendered as it is.
    Text(String),
}

/// The mathematical model of a `Content`.
pub enum ContentView {
    Element {
        name: Seq<char>,
        class_names: Seq<Seq<char>>,
        properties: Seq<(Seq<char>, Seq<char>)>,
        contents: Seq<ContentView>,
    },
    Text(Seq<char>),
}

impl View for Content {
    type V = ContentView;

    open spec fn view(&self) -> ContentView
        decreases self,
    {
        match self {
            Content::Element { name, class_names, properties, contents } => ContentView::Element {
                name: name@,
                class_names: class_names.deep_view(),
                properties: properties.deep_view(),
                contents: Seq::new(
                    contents.len() as nat,
                    |i: int|
                        if 0 <= i < contents.len() {
                            contents[i].view()
                        } else {
                            ContentView::Text(Seq::empty())
                        },
                ),
            },
            Content::Text(text) => ContentView::Text(text@),
        }
    }
}

impl DeepView for Content {
    type V = ContentView;

    open spec fn deep_view(&self) -> ContentView {
        self.view()
    }
}

/// The model of an element holds the models of its contents.
pub proof fn lemma_element_view(content: Content)
    requires
        content is Element,
    ensures
        content@ == (ContentView::Element {
            name: content->name@,
            class_names: content->class_names.deep_view(),
            properties: content->properties.deep_view(),
            contents: content->contents.deep_view(),
        }),
{
    assert(content@->contents =~= content->contents.deep_view());
}

/// The attributes as they stand in an opening tag: each as a space, its
/// name, `="`, its value and `"`.
pub open spec fn rendered_properties(properties: Seq<(Seq<char>, Seq<char>)>) -> Seq<char>
    decreases properties.len(),
{
    if properties.len() == 0 {
        Seq::empty()
    } else {
        rendered_properties(properties.drop_last()) + " "@ + properties.last().0 + "=\""@
            + properties.last().1 + "\""@
    }
}

/// The class attribute of an opening tag: nothing where there is no class
/// name, else ` class="` and `"` around the names with a space between them.
pub open spec fn rendered_classes(class_names: Seq<Seq<char>>) -> Seq<char> {
    if class_names.len() == 0 {
        Seq::empty()
    } else {
        " class=\""@ + joined(class_names, " "@) + "\""@
    }
}

/// The text of a list of nodes: the text of each, in order, nothing between
/// them.
pub open spec fn rendered_all(contents: Seq<ContentView>) -> Seq<char>
    decreases contents, 0int,
{
    if contents.len() == 0 {
        Seq::empty()
    } else {
        rendered_all(contents.drop_last()) + rendered(contents.last())
    }
}

/// The text of a node. An element is its opening tag, with the class
/// attribute and the other attributes, the text of its contents, and its
/// closing tag; a text is itself.
pub open spec fn rendered(content: ContentView) -> Seq<char>
    decreases content, 1int,
{
    match content {
        ContentView::Element { name, class_names, properties, contents } => "<"@ + name
            + rendered_classes(class_names) + rendered_properties(properties) + ">"@
            + rendered_all(contents) + "</"@ + name + ">"@,
        ContentView::Text(text) => text,
    }
}

/// A node without its contents.
pub open spec fn bare(content: ContentView) -> ContentView {
    match content {
        ContentView::Element { name, class_names, properties, .. } => ContentView::Element {
            name,
            class_names,
            properties,
            contents: Seq::empty(),
        },
        ContentView::Text(_) => content,
    }
}

/// The nodes of a list of trees in document order: those of the first tree,
/// then those of the second, and so on.
pub open spec fn document_order_all(contents: Seq<ContentView>) -> Seq<ContentView>
    decreases contents, 0int,
{
    if contents.len() == 0 {
        Seq::empty()
    } else {
        document_order_all(contents.drop_last()) + document_order(contents.last())
    }
}

/// The nodes of a tree in document order: the node itself, without its
/// contents, and then the nodes of its contents.
pub open spec fn document_order(content: ContentView) -> Seq<ContentView>
    decreases content, 1int,
{
    match content {
        ContentView::Element { contents, .. } => seq![bare(content)] + document_order_all(contents),
        ContentView::Text(_) => seq![content],
    }
}

impl Content {
    /// An element that holds what is given.
    pub fn new_element(
        name: String,
        class_names: Vec<String>,
        properties: Vec<(String, String)>,
        contents: Vec<Content>,
    ) -> (content: Self)
        ensures
            content@ == (ContentView::Element {
                name: name@,
                class_names: class_names.deep_view(),
                properties: properties.deep_view(),
                contents: contents.deep_view(),
            }),
    {
        let content = Content::Element { name, class_names, properties, contents };
        proof {
            lemma_element_view(content);
        }
        content
    }

    /// A text.
    pub fn new_text(text: String) -> (content: Self)
        ensures
            content@ == ContentView::Text(text@),
    {
        Content::Text(text)
    }

    /// Writes the node out as markup.
    pub fn render(&self) -> (out: String)
        ensures
            out@ == rendered(self@),
        decreases self,
    {
        match self {
            Content::Element { name, class_names, properties, contents } => {
                proof {
                    lemma_element_view(*self);
                }
                let mut out = String::from_str("<");
                out.append(name.as_str());
                if class_names.len() > 0 {
                    out.append(" class=\"");
                    let names = join(class_names, " ");
                    out.append(names.as_str());
                    out.append("\"");
                }
                let attributes = render_attributes(properties);
                out.append(attributes.as_str());
                out.append(">");
                let ghost opening = out@;
                let mut i: usize = 0;
                proof {
                    assert(contents.deep_view().take(0) =~= Seq::empty());
                }
                while i < contents.len()
                    invariant
                        i <= contents.len(),
                        out@ == opening + rendered_all(contents.deep_view().take(i as int)),
                        self is Element,
                        self->contents == contents,
                    decreases contents.len() - i,
                {
                    let piece = contents[i].render();
                    out.append(piece.as_str());
                    proof {
                        let upto = contents.deep_view().take(i + 1);
                        assert(upto.drop_last() =~= contents.deep_view().take(i as int));
                        assert(upto.last() == contents[i as int]@);
                    }
                    i += 1;
                }
                proof {
                    assert(contents.deep_view().take(contents.len() as int)
                        =~= contents.deep_view());
                }
                out.append("</");
                out.append(name.as_str());
                out.append(">");
                out
            },
            Content::Text(text) => text.clone(),
        }
    }
}

/// Writes attributes out as they stand in an opening tag.
fn render_attributes(properties: &Vec<(String, String)>) -> (out: String)
    ensures
        out@ == rendered_properties(properties.deep_view()),
{
    let mut out = String::new();
    let mut i: usize = 0;
    proof {
        assert(properties.deep_view().take(0) =~= Seq::empty());
    }
    while i < properties.len()
        invariant
            i <= properties.len(),
            out@ == rendered_properties(properties.deep_view().take(i as int)),
        decreases properties.len() - i,
    {
        out.append(" ");
        out.append(properties[i].0.as_str());
        out.append("=\"");
        out.append(properties[i].1.as_str());
        out.append("\"");
        proof {
            let upto = properties.deep_view().take(i + 1);
            assert(upto.drop_last() =~= properties.deep_view().take(i as int));
            assert(upto.last() == (properties[i as int].0@, properties[i as int].1@));
        }
        i += 1;
    }
    proof {
        assert(properties.deep_view().take(properties.len() as int) =~= properties.deep_view());
    }
    out
}

/// Writes a list of nodes out as markup, one after the other.
pub fn render_all(contents: &Vec<Content>) -> (out: String)
    ensures
        out@ == rendered_all(contents.deep_view()),
{
    let mut out = String::new();
    let mut i: usize = 0;
    proof {
        assert(contents.deep_view().take(0) =~= Seq::empty());
    }
    while i < contents.len()
        invariant
            i <= contents.len(),
            out@ == rendered_all(contents.deep_view().take(i as int)),
        decreases contents.len() - i,
    {
        let piece = contents[i].render();
        out.append(piece.as_str());
        proof {
            let upto = contents.deep_view().take(i + 1);
            assert(upto.drop_last() =~= contents.deep_view().take(i as int));
            assert(upto.last() == contents[i as int]@);
        }
        i += 1;
    }
    proof {
        assert(contents.deep_view().take(contents.len() as int) =~= contents.deep_view());
    }
    out
}

} // verus!
